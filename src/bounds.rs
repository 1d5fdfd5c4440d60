//! Bounds reduction: the tightest axis-aligned box around every particle position.
use vstd::prelude::*;
use crate::common::{Bounds, IVec3, Particle};

verus! {

broadcast use vstd::seq_lib::group_to_multiset_ensures;

/// The box that a reduction over `ps` produces, starting from the reset sentinel.
pub open spec fn bounds_of(ps: Seq<Particle>) -> Bounds
    decreases ps.len(),
{
    if ps.len() == 0 {
        Bounds::empty_spec()
    } else {
        bounds_of(ps.drop_last()).including(ps.last().position)
    }
}

/// Some particle of `ps` lies on the lower face of `b` on axis `a`.
pub open spec fn touches_min(b: Bounds, ps: Seq<Particle>, a: int) -> bool {
    exists|i: int| 0 <= i < ps.len() && #[trigger] ps[i].position.axis(a) == b.min.axis(a)
}

/// Some particle of `ps` lies on the upper face of `b` on axis `a`.
pub open spec fn touches_max(b: Bounds, ps: Seq<Particle>, a: int) -> bool {
    exists|i: int| 0 <= i < ps.len() && #[trigger] ps[i].position.axis(a) == b.max.axis(a)
}

/// `b` holds every position of `ps` and each face of `b` touches one of them.
pub open spec fn is_tight_box(b: Bounds, ps: Seq<Particle>) -> bool {
    &&& forall|i: int| 0 <= i < ps.len() ==> b.contains_point(#[trigger] ps[i].position)
    &&& forall|a: int| 0 <= a < 3 ==> #[trigger] touches_min(b, ps, a)
    &&& forall|a: int| 0 <= a < 3 ==> #[trigger] touches_max(b, ps, a)
}

/// Reduces the particle positions to their bounding box.
///
/// With no particles the reset sentinel comes back unchanged.
pub fn compute_bounds(particles: &Vec<Particle>) -> (r: Bounds)
    ensures
        r == bounds_of(particles@),
        particles@.len() == 0 ==> r == Bounds::empty_spec(),
        particles@.len() > 0 ==> is_tight_box(r, particles@),
{
    let mut bounds = Bounds::empty();
    let mut i: usize = 0;
    while i < particles.len()
        invariant
            i <= particles@.len(),
            bounds == bounds_of(particles@.take(i as int)),
        decreases particles@.len() - i,
    {
        bounds.widen(particles[i].position);
        proof {
            let next = particles@.take(i as int + 1);
            assert(next.drop_last() =~= particles@.take(i as int));
        }
        i = i + 1;
    }
    proof {
        assert(particles@.take(particles@.len() as int) =~= particles@);
        if particles@.len() > 0 {
            lemma_bounds_tight(particles@);
        }
    }
    bounds
}

/// Every position lies inside the reduced box, and each face of the box
/// touches a particle: the box is the tightest one.
pub proof fn lemma_bounds_tight(ps: Seq<Particle>)
    requires
        ps.len() > 0,
    ensures
        is_tight_box(bounds_of(ps), ps),
        !bounds_of(ps).is_empty_spec(),
    decreases ps.len(),
{
    let b = bounds_of(ps);
    let p = ps.last().position;
    let init = ps.drop_last();
    if init.len() == 0 {
        assert(bounds_of(init) == Bounds::empty_spec());
        assert(ps.len() == 1 && ps.last() == ps[0]);
        assert forall|i: int| 0 <= i < ps.len() implies b.contains_point(
            #[trigger] ps[i].position,
        ) by {
            assert(i == 0);
        }
        assert forall|a: int| 0 <= a < 3 implies #[trigger] touches_min(b, ps, a) by {
            assert(ps[0].position.axis(a) == b.min.axis(a));
        }
        assert forall|a: int| 0 <= a < 3 implies #[trigger] touches_max(b, ps, a) by {
            assert(ps[0].position.axis(a) == b.max.axis(a));
        }
    } else {
        lemma_bounds_tight(init);
        let c = bounds_of(init);
        let last = ps.len() - 1;
        assert forall|i: int| 0 <= i < ps.len() implies b.contains_point(
            #[trigger] ps[i].position,
        ) by {
            if i < last {
                assert(init[i] == ps[i]);
                assert(c.contains_point(init[i].position));
            }
        }
        assert forall|a: int| 0 <= a < 3 implies #[trigger] touches_min(b, ps, a) by {
            if p.axis(a) < c.min.axis(a) {
                assert(ps[last].position.axis(a) == b.min.axis(a));
            } else {
                assert(touches_min(c, init, a));
                let j = choose|j: int|
                    0 <= j < init.len() && #[trigger] init[j].position.axis(a) == c.min.axis(a);
                assert(ps[j] == init[j]);
                assert(ps[j].position.axis(a) == b.min.axis(a));
            }
        }
        assert forall|a: int| 0 <= a < 3 implies #[trigger] touches_max(b, ps, a) by {
            if p.axis(a) > c.max.axis(a) {
                assert(ps[last].position.axis(a) == b.max.axis(a));
            } else {
                assert(touches_max(c, init, a));
                let j = choose|j: int|
                    0 <= j < init.len() && #[trigger] init[j].position.axis(a) == c.max.axis(a);
                assert(ps[j] == init[j]);
                assert(ps[j].position.axis(a) == b.max.axis(a));
            }
        }
    }
    assert(b.contains_point(ps[0].position));
    assert(!b.is_empty_spec()) by {
        assert forall|a: int| 0 <= a < 3 implies b.min.axis(a) <= b.max.axis(a) by {
            assert(b.min.axis(a) <= ps[0].position.axis(a) <= b.max.axis(a));
        }
    }
}

/// Two tight boxes of particle sets with the same members are the same box.
proof fn lemma_tight_box_unique(b1: Bounds, ps1: Seq<Particle>, b2: Bounds, ps2: Seq<Particle>)
    requires
        is_tight_box(b1, ps1),
        is_tight_box(b2, ps2),
        forall|x: Particle| ps1.contains(x) <==> ps2.contains(x),
    ensures
        b1 == b2,
{
    assert forall|a: int| 0 <= a < 3 implies b1.min.axis(a) == b2.min.axis(a)
        && b1.max.axis(a) == b2.max.axis(a) by {
        assert(touches_min(b1, ps1, a) && touches_max(b1, ps1, a));
        assert(touches_min(b2, ps2, a) && touches_max(b2, ps2, a));
        let i1 = choose|i: int| 0 <= i < ps1.len() && #[trigger] ps1[i].position.axis(a) == b1.min.axis(a);
        let j1 = choose|i: int| 0 <= i < ps1.len() && #[trigger] ps1[i].position.axis(a) == b1.max.axis(a);
        let i2 = choose|i: int| 0 <= i < ps2.len() && #[trigger] ps2[i].position.axis(a) == b2.min.axis(a);
        let j2 = choose|i: int| 0 <= i < ps2.len() && #[trigger] ps2[i].position.axis(a) == b2.max.axis(a);
        assert(ps1.contains(ps1[i1]));
        assert(ps1.contains(ps1[j1]));
        assert(ps2.contains(ps2[i2]));
        assert(ps2.contains(ps2[j2]));
        let k1 = choose|k: int| 0 <= k < ps2.len() && ps2[k] == ps1[i1];
        let l1 = choose|k: int| 0 <= k < ps2.len() && ps2[k] == ps1[j1];
        let k2 = choose|k: int| 0 <= k < ps1.len() && ps1[k] == ps2[i2];
        let l2 = choose|k: int| 0 <= k < ps1.len() && ps1[k] == ps2[j2];
        assert(b2.contains_point(ps2[k1].position));
        assert(b2.contains_point(ps2[l1].position));
        assert(b1.contains_point(ps1[k2].position));
        assert(b1.contains_point(ps1[l2].position));
    }
    assert forall|a: int| 0 <= a < 3 implies #[trigger] b1.min.axis(a) == b2.min.axis(a) by {
        assert(b1.min.axis(a) == b2.min.axis(a) && b1.max.axis(a) == b2.max.axis(a));
    }
    assert forall|a: int| 0 <= a < 3 implies #[trigger] b1.max.axis(a) == b2.max.axis(a) by {
        assert(b1.min.axis(a) == b2.min.axis(a) && b1.max.axis(a) == b2.max.axis(a));
    }
    b1.min.lemma_eq_by_axes(b2.min);
    b1.max.lemma_eq_by_axes(b2.max);
}

/// The reduction does not depend on the order in which particles arrive: any
/// reordering of the particle buffer gives the same box, so two reductions of an
/// unchanged buffer agree exactly.
pub proof fn lemma_bounds_ignore_order(ps1: Seq<Particle>, ps2: Seq<Particle>)
    requires
        ps1.to_multiset() == ps2.to_multiset(),
    ensures
        bounds_of(ps1) == bounds_of(ps2),
{
    assert(ps1.len() == ps1.to_multiset().len());
    assert(ps2.len() == ps2.to_multiset().len());
    if ps1.len() > 0 {
        lemma_bounds_tight(ps1);
        lemma_bounds_tight(ps2);
        assert forall|x: Particle| ps1.contains(x) <==> ps2.contains(x) by {
            assert(ps1.contains(x) <==> ps1.to_multiset().count(x) > 0);
            assert(ps2.contains(x) <==> ps2.to_multiset().count(x) > 0);
        }
        lemma_tight_box_unique(bounds_of(ps1), ps1, bounds_of(ps2), ps2);
    } else {
        assert(ps1 =~= ps2);
    }
}

/// Holds the bounds value that each reduction pass overwrites.
pub struct BoundsPartition {
    pub bounds: Bounds,
}

impl BoundsPartition {
    pub fn new() -> (r: BoundsPartition)
        ensures
            r.bounds == Bounds::empty_spec(),
    {
        BoundsPartition { bounds: Bounds::empty() }
    }

    /// Resets the bounds to the sentinel, then reduces the particles into it, so
    /// that nothing of an earlier pass survives.
    pub fn calculate_bounds(&mut self, particles: &Vec<Particle>)
        ensures
            final(self).bounds == bounds_of(particles@),
    {
        self.bounds = Bounds::empty();
        let mut i: usize = 0;
        while i < particles.len()
            invariant
                i <= particles@.len(),
                self.bounds == bounds_of(particles@.take(i as int)),
            decreases particles@.len() - i,
        {
            self.bounds.widen(particles[i].position);
            proof {
                assert(particles@.take(i as int + 1).drop_last() =~= particles@.take(i as int));
            }
            i = i + 1;
        }
        proof {
            assert(particles@.take(particles@.len() as int) =~= particles@);
        }
    }
}

} // verus!
