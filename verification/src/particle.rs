//! A particle of the Verlet scheme: its velocity is never stored, it is the
//! difference between the position and the position one step earlier.

use crate::arith::lemma_product_bound;
use crate::arith::div_trunc;
use crate::vec2::{Vec2, COORD_MAX, ONE, V2};
use vstd::prelude::*;

verus! {

/// The mathematical state of a particle.
pub struct ParticleState {
    pub pos: V2,
    pub old_pos: V2,
    pub acceleration: V2,
}

/// The displacement that a constant acceleration adds over one step of
/// duration `dt`: `a * dt^2`, with `a` and `dt` in fixed point.
pub open spec fn displacement(a: V2, dt: int) -> V2 {
    a.scaled(dt * dt, ONE * ONE)
}

impl ParticleState {
    /// Every coordinate is storable.
    pub open spec fn wf(self) -> bool {
        &&& self.pos.within(COORD_MAX as int)
        &&& self.old_pos.within(COORD_MAX as int)
        &&& self.acceleration.within(COORD_MAX as int)
    }

    /// The displacement of the last step.
    pub open spec fn velocity(self) -> V2 {
        self.pos.minus(self.old_pos)
    }

    /// The state after `a` was added to the accumulated acceleration.
    pub open spec fn accelerated(self, a: V2) -> ParticleState {
        ParticleState { acceleration: self.acceleration.plus(a).saturated(), ..self }
    }

    /// The state after one integration step of duration `dt`: the position
    /// advances by the velocity and by the displacement of the accumulated
    /// acceleration, the old position becomes the position held before, and
    /// the accumulator is cleared.
    pub open spec fn integrated(self, dt: int) -> ParticleState {
        ParticleState {
            pos: self.pos.plus(self.velocity()).plus(
                displacement(self.acceleration, dt),
            ).saturated(),
            old_pos: self.pos,
            acceleration: V2 { x: 0, y: 0 },
        }
    }
}

/// Accumulating an acceleration and integrating keep every coordinate
/// storable.
pub proof fn lemma_motion_keeps_storable(p: ParticleState, a: V2, dt: int)
    requires
        p.wf(),
    ensures
        p.accelerated(a).wf(),
        p.integrated(dt).wf(),
{
}

/// A particle whose coordinates are all storable.
#[derive(Clone, Copy, Debug)]
pub struct Particle {
    pos: Vec2,
    old_pos: Vec2,
    acceleration: Vec2,
}

impl View for Particle {
    type V = ParticleState;

    closed spec fn view(&self) -> ParticleState {
        ParticleState { pos: self.pos@, old_pos: self.old_pos@, acceleration: self.acceleration@ }
    }
}

impl Particle {
    #[verifier::type_invariant]
    spec fn storable(self) -> bool {
        self@.wf()
    }

    /// A particle at `pos` that was at `old_pos` one step earlier, each
    /// vector moved to the nearest storable one.
    pub fn from_parts(pos: Vec2, old_pos: Vec2, acceleration: Vec2) -> (p: Particle)
        ensures
            p@ == (ParticleState {
                pos: pos@.saturated(),
                old_pos: old_pos@.saturated(),
                acceleration: acceleration@.saturated(),
            }),
            p@.wf(),
    {
        Particle {
            pos: Vec2::saturating(pos.x as i128, pos.y as i128),
            old_pos: Vec2::saturating(old_pos.x as i128, old_pos.y as i128),
            acceleration: Vec2::saturating(acceleration.x as i128, acceleration.y as i128),
        }
    }

    /// A particle at `(x, y)` that was at `(old_x, old_y)` one step earlier,
    /// with no acceleration accumulated.
    pub fn new(x: i64, y: i64, old_x: i64, old_y: i64) -> (p: Particle)
        ensures
            p@ == (ParticleState {
                pos: (V2 { x: x as int, y: y as int }).saturated(),
                old_pos: (V2 { x: old_x as int, y: old_y as int }).saturated(),
                acceleration: V2 { x: 0, y: 0 },
            }),
            p@.wf(),
    {
        Particle::from_parts(Vec2::new(x, y), Vec2::new(old_x, old_y), Vec2::new(0, 0))
    }

    /// One integration step of duration `dt`, in fixed point.
    pub fn update(&mut self, dt: u32)
        ensures
            final(self)@ == old(self)@.integrated(dt as int),
            final(self)@.wf(),
    {
        proof {
            use_type_invariant(&*self);
            lemma_product_bound(dt as int, dt as int, 0x1_0000_0000, 0x1_0000_0000);
        }
        let dt2: i128 = (dt as i128) * (dt as i128);
        let unit2: i128 = (ONE as i128) * (ONE as i128);
        let ax = self.acceleration.x as i128;
        let ay = self.acceleration.y as i128;
        proof {
            lemma_product_bound(
                ax as int,
                dt2 as int,
                COORD_MAX as int,
                0x1_0000_0000_0000_0000int,
            );
            lemma_product_bound(
                ay as int,
                dt2 as int,
                COORD_MAX as int,
                0x1_0000_0000_0000_0000int,
            );
        }
        let gx = div_trunc(ax * dt2, unit2);
        let gy = div_trunc(ay * dt2, unit2);
        proof {
            crate::arith::lemma_div_toward_zero((ax * dt2) as int, unit2 as int);
            crate::arith::lemma_div_toward_zero((ay * dt2) as int, unit2 as int);
        }
        let px = self.pos.x as i128;
        let py = self.pos.y as i128;
        let vx = px - self.old_pos.x as i128;
        let vy = py - self.old_pos.y as i128;
        let next = Vec2::saturating(px + vx + gx, py + vy + gy);
        self.old_pos = self.pos;
        self.pos = next;
        self.acceleration = Vec2::new(0, 0);
    }

    /// Adds `acc` to the accumulated acceleration.
    pub fn accelerate(&mut self, acc: Vec2)
        ensures
            final(self)@ == old(self)@.accelerated(acc@),
            final(self)@.wf(),
    {
        proof {
            use_type_invariant(&*self);
        }
        self.acceleration = Vec2::saturating(
            self.acceleration.x as i128 + acc.x as i128,
            self.acceleration.y as i128 + acc.y as i128,
        );
    }

    /// The current position.
    pub fn pos(&self) -> (v: Vec2)
        ensures
            v@ == self@.pos,
            self@.wf(),
    {
        proof {
            use_type_invariant(self);
        }
        self.pos
    }

    /// The position one step earlier.
    pub fn old_pos(&self) -> (v: Vec2)
        ensures
            v@ == self@.old_pos,
            self@.wf(),
    {
        proof {
            use_type_invariant(self);
        }
        self.old_pos
    }

    /// The acceleration accumulated since the last integration step.
    pub fn acceleration(&self) -> (v: Vec2)
        ensures
            v@ == self@.acceleration,
            self@.wf(),
    {
        proof {
            use_type_invariant(self);
        }
        self.acceleration
    }
}

} // verus!
