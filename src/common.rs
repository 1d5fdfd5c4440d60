//! Data shared by every stage of a tick: particles, bounding boxes and grid cells.
//!
//! Positions are integer (quantized) coordinates. A caller that works in floating
//! point converts before handing particles to the library, rounding outward when
//! it builds bounds by itself.
use vstd::prelude::*;

verus! {

/// Number of particle slots in one grid cell.
pub const MAX_PARTICLES_PER_GRID_CELL: usize = 4;

/// A point or displacement in integer space.
#[derive(Clone, Copy, Debug, PartialEq, Eq, Structural)]
pub struct IVec3 {
    pub x: i32,
    pub y: i32,
    pub z: i32,
}

impl IVec3 {
    pub fn new(x: i32, y: i32, z: i32) -> (r: IVec3)
        ensures
            r == (IVec3 { x, y, z }),
    {
        IVec3 { x, y, z }
    }

    /// Coordinate on axis `a` (0 is x, 1 is y, 2 is z).
    pub open spec fn axis(self, a: int) -> int {
        if a == 0 {
            self.x as int
        } else if a == 1 {
            self.y as int
        } else {
            self.z as int
        }
    }

    pub proof fn lemma_eq_by_axes(self, other: IVec3)
        requires
            forall|a: int| 0 <= a < 3 ==> #[trigger] self.axis(a) == other.axis(a),
        ensures
            self == other,
    {
        assert(self.axis(0) == other.axis(0));
        assert(self.axis(1) == other.axis(1));
        assert(self.axis(2) == other.axis(2));
    }
}

/// One particle. Its velocity is implicit: `position - old_position`.
#[derive(Clone, Copy, Debug, PartialEq, Eq, Structural)]
pub struct Particle {
    pub position: IVec3,
    pub old_position: IVec3,
}

impl Particle {
    /// A particle at rest at `position`.
    pub fn at_rest(position: IVec3) -> (r: Particle)
        ensures
            r.position == position,
            r.old_position == position,
    {
        Particle { position, old_position: position }
    }

    pub fn zeroed() -> (r: Particle)
        ensures
            r == (Particle {
                position: IVec3 { x: 0, y: 0, z: 0 },
                old_position: IVec3 { x: 0, y: 0, z: 0 },
            }),
    {
        let origin = IVec3 { x: 0, y: 0, z: 0 };
        Particle { position: origin, old_position: origin }
    }
}

/// Axis-aligned box. A box with `min > max` on some axis holds no point.
#[derive(Clone, Copy, Debug, PartialEq, Eq, Structural)]
pub struct Bounds {
    pub min: IVec3,
    pub max: IVec3,
}

pub open spec fn smaller(a: i32, b: i32) -> i32 {
    if a <= b {
        a
    } else {
        b
    }
}

pub open spec fn larger(a: i32, b: i32) -> i32 {
    if a >= b {
        a
    } else {
        b
    }
}

impl Bounds {
    /// The reset value of a reduction: every axis runs from `i32::MAX` down to `i32::MIN`.
    pub open spec fn empty_spec() -> Bounds {
        Bounds {
            min: IVec3 { x: i32::MAX, y: i32::MAX, z: i32::MAX },
            max: IVec3 { x: i32::MIN, y: i32::MIN, z: i32::MIN },
        }
    }

    pub open spec fn is_empty_spec(self) -> bool {
        exists|a: int| 0 <= a < 3 && #[trigger] self.min.axis(a) > self.max.axis(a)
    }

    /// The smallest box that holds both `self` and the point `p`.
    pub open spec fn including(self, p: IVec3) -> Bounds {
        Bounds {
            min: IVec3 {
                x: smaller(self.min.x, p.x),
                y: smaller(self.min.y, p.y),
                z: smaller(self.min.z, p.z),
            },
            max: IVec3 {
                x: larger(self.max.x, p.x),
                y: larger(self.max.y, p.y),
                z: larger(self.max.z, p.z),
            },
        }
    }

    pub open spec fn contains_point(self, p: IVec3) -> bool {
        forall|a: int|
            0 <= a < 3 ==> self.min.axis(a) <= #[trigger] p.axis(a) <= self.max.axis(a)
    }

    /// The reset value (sentinel) of a reduction.
    pub fn empty() -> (r: Bounds)
        ensures
            r == Bounds::empty_spec(),
            r.is_empty_spec(),
    {
        let r = Bounds {
            min: IVec3 { x: i32::MAX, y: i32::MAX, z: i32::MAX },
            max: IVec3 { x: i32::MIN, y: i32::MIN, z: i32::MIN },
        };
        assert(r.min.axis(0) > r.max.axis(0));
        r
    }

    /// Whether the box holds no point (`min > max` on some axis).
    pub fn is_empty(&self) -> (r: bool)
        ensures
            r == self.is_empty_spec(),
    {
        let r = self.min.x > self.max.x || self.min.y > self.max.y || self.min.z > self.max.z;
        assert(r ==> self.min.axis(0) > self.max.axis(0) || self.min.axis(1) > self.max.axis(1)
            || self.min.axis(2) > self.max.axis(2));
        r
    }

    /// Widens the box to hold `p` (the atomic min/max step of a reduction).
    pub fn widen(&mut self, p: IVec3)
        ensures
            *final(self) == old(self).including(p),
    {
        if p.x < self.min.x {
            self.min.x = p.x;
        }
        if p.y < self.min.y {
            self.min.y = p.y;
        }
        if p.z < self.min.z {
            self.min.z = p.z;
        }
        if p.x > self.max.x {
            self.max.x = p.x;
        }
        if p.y > self.max.y {
            self.max.y = p.y;
        }
        if p.z > self.max.z {
            self.max.z = p.z;
        }
    }
}


/// A setup value that no tick can run with.
#[derive(Clone, Copy, Debug, PartialEq, Eq, Structural)]
pub enum ConfigError {
    /// The grid has no cell on some axis.
    ZeroGridSize,
    /// The cube of the grid size does not fit in a `u32` cell index.
    GridTooLarge,
    /// The particle store has no room for a particle.
    NoParticles,
}

} // verus!
