//! The parameters of a run. Lengths, accelerations and the two factors are
//! in fixed point with 16 fractional bits.

use crate::vec2::{Vec2, COORD_MAX, ONE, V2};
use vstd::prelude::*;

verus! {

/// What a simulation is made with and never changes afterwards.
#[derive(Clone, Copy, Debug)]
pub struct Config {
    /// The acceleration that every particle receives in every sub-step.
    pub gravity: Vec2,
    /// The radius shared by all particles.
    pub particle_radius: i64,
    /// The centre of the circular container.
    pub container_center: Vec2,
    /// The radius of the circular container.
    pub container_radius: i64,
    /// The number of particles that is never exceeded.
    pub max_particles: usize,
    /// A particle is spawned on the frames whose index this divides.
    pub spawn_cadence: u32,
    /// The number of sub-steps that one frame is divided into.
    pub sub_steps: u32,
    /// The fraction of its speed that a particle keeps when it bounces off
    /// the wall, at most `ONE`.
    pub damping_factor: i64,
    /// The fraction of the approach speed of two colliding particles that
    /// becomes their separation speed, at most `ONE`.
    pub restitution_coefficient: i64,
    /// Where particles are spawned.
    pub spawn_point: Vec2,
    /// The length of the displacement that a spawned particle starts with.
    pub spawn_speed: i64,
}

impl Config {
    /// The parameters describe a container that fits into the storable
    /// plane, at least one sub-step per frame, a spawn cadence of at least
    /// one frame, and factors between zero and one.
    pub open spec fn wf(self) -> bool {
        &&& self.gravity@.within(COORD_MAX as int)
        &&& 1 <= self.particle_radius <= self.container_radius <= COORD_MAX
        &&& self.container_center@.within(COORD_MAX - self.container_radius)
        &&& 1 <= self.spawn_cadence
        &&& 1 <= self.sub_steps
        &&& 0 <= self.damping_factor <= ONE
        &&& 0 <= self.restitution_coefficient <= ONE
        &&& self.spawn_point@.within(COORD_MAX as int)
        &&& 0 <= self.spawn_speed <= COORD_MAX
    }

    /// The largest distance from the centre of the container at which the
    /// centre of a particle may be.
    pub open spec fn reach(self) -> int {
        self.container_radius - self.particle_radius
    }

    /// The distance of the centres of two touching particles.
    pub open spec fn contact_distance(self) -> int {
        2 * self.particle_radius
    }

    /// Whether the parameters are well formed.
    pub fn is_valid(&self) -> (b: bool)
        ensures
            b == self.wf(),
    {
        let r = self.container_radius;
        self.gravity.in_range() && 1 <= self.particle_radius && self.particle_radius <= r && r
            <= COORD_MAX && -(COORD_MAX - r) <= self.container_center.x && self.container_center.x
            <= COORD_MAX - r && -(COORD_MAX - r) <= self.container_center.y
            && self.container_center.y <= COORD_MAX - r && 1 <= self.spawn_cadence && 1
            <= self.sub_steps && 0 <= self.damping_factor && self.damping_factor <= ONE && 0
            <= self.restitution_coefficient && self.restitution_coefficient <= ONE
            && self.spawn_point.in_range() && 0 <= self.spawn_speed && self.spawn_speed
            <= COORD_MAX
    }

    /// A container of radius 250 about (300, 300), particles of radius 4
    /// under a gravity of 750 downwards, six sub-steps per frame, one
    /// particle spawned per frame up to a thousand.
    pub fn standard() -> (c: Config)
        ensures
            c.wf(),
            c.gravity@ == (V2 { x: 0, y: 750 * ONE }),
            c.particle_radius == 4 * ONE,
            c.container_center@ == (V2 { x: 300 * ONE, y: 300 * ONE }),
            c.container_radius == 250 * ONE,
            c.max_particles == 1000,
            c.spawn_cadence == 1,
            c.sub_steps == 6,
            c.damping_factor == 65470,
            c.restitution_coefficient == 45875,
            c.spawn_point@ == (V2 { x: 300 * ONE, y: 100 * ONE }),
            c.spawn_speed == 4 * ONE,
    {
        Config {
            gravity: Vec2::new(0, 750 * ONE),
            particle_radius: 4 * ONE,
            container_center: Vec2::new(300 * ONE, 300 * ONE),
            container_radius: 250 * ONE,
            max_particles: 1000,
            spawn_cadence: 1,
            sub_steps: 6,
            damping_factor: 65470,
            restitution_coefficient: 45875,
            spawn_point: Vec2::new(300 * ONE, 100 * ONE),
            spawn_speed: 4 * ONE,
        }
    }
}

} // verus!
