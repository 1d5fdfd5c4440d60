//! Dimensions of a discrete simulation grid and its flat cell numbering
//! `x + y * width + z * width * height`.
use vstd::prelude::*;

verus! {

pub struct SimulationDescriptor {
    /// number of cells within x axis of the discrete simulation grid
    pub width: u32,
    /// number of cells within y axis of the discrete simulation grid
    pub height: u32,
    /// number of cells within z axis of the discrete simulation grid
    pub depth: u32,
}

impl SimulationDescriptor {
    pub open spec fn total(self) -> int {
        self.width as int * self.height as int * self.depth as int
    }

    /// Number of cells, or `None` when it does not fit in a `u32` cell number.
    pub fn cell_count(&self) -> (r: Option<u32>)
        ensures
            r is Some <==> self.total() <= u32::MAX,
            r matches Some(n) ==> n as int == self.total(),
    {
        let w = self.width as u64;
        let h = self.height as u64;
        let d = self.depth as u64;
        assert(w * h <= 0xffff_ffff * 0xffff_ffffu64) by (nonlinear_arith)
            requires
                w <= 0xffff_ffff,
                h <= 0xffff_ffff,
        ;
        let wh = w * h;
        if wh > u32::MAX as u64 {
            proof {
                if d == 0 {
                    assert(self.total() == 0);
                }
            }
            if d == 0 {
                return Some(0);
            }
            assert(wh * d >= wh) by (nonlinear_arith)
                requires
                    d >= 1,
                    wh >= 0,
            ;
            return None;
        }
        assert(wh * d <= 0xffff_ffff * 0xffff_ffffu64) by (nonlinear_arith)
            requires
                wh <= 0xffff_ffff,
                d <= 0xffff_ffff,
        ;
        let n = wh * d;
        if n > u32::MAX as u64 {
            None
        } else {
            Some(n as u32)
        }
    }

    /// Grid coordinates `(x, y, z)` of the cell numbered `index`.
    pub fn coordinates(&self, index: u32) -> (r: (u32, u32, u32))
        requires
            self.width > 0,
            self.height > 0,
            self.width as int * self.height as int <= u32::MAX,
        ensures
            r.0 < self.width,
            r.1 < self.height,
            r.0 as int + r.1 as int * self.width as int + r.2 as int * self.width as int
                * self.height as int == index as int,
            (index as int) < self.total() ==> r.2 < self.depth,
    {
        let w = self.width;
        let h = self.height;
        let wh = w * h;
        assert(wh > 0) by (nonlinear_arith)
            requires
                w > 0,
                h > 0,
                wh == w * h,
        ;
        let z = index / wh;
        let y = (index / w) % h;
        let x = index % w;
        proof {
            let i = index as int;
            let wi = w as int;
            let hi = h as int;
            assert(i == (i / wi) * wi + i % wi) by (nonlinear_arith)
                requires
                    wi > 0,
            ;
            assert(i / wi == ((i / wi) / hi) * hi + (i / wi) % hi) by (nonlinear_arith)
                requires
                    hi > 0,
            ;
            assert((i / wi) / hi == i / (wi * hi)) by {
                vstd::arithmetic::div_mod::lemma_div_denominator(i, wi, hi);
            }
            assert(x as int + y as int * wi + z as int * wi * hi == i) by (nonlinear_arith)
                requires
                    i == (i / wi) * wi + i % wi,
                    i / wi == ((i / wi) / hi) * hi + (i / wi) % hi,
                    (i / wi) / hi == i / (wi * hi),
                    x as int == i % wi,
                    y as int == (i / wi) % hi,
                    z as int == i / (wi * hi),
            ;
            if i < self.total() {
                assert(z < self.depth) by (nonlinear_arith)
                    requires
                        z as int == i / (wi * hi),
                        i < wi * hi * self.depth as int,
                        wi * hi > 0,
                        0 <= i,
                ;
            }
        }
        (x, y, z)
    }
}

} // verus!
