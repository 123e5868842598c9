//! When and how particles are spawned: one at a time from a fixed point,
//! in a spray that swings from side to side with the number of particles.

use crate::config::Config;
use crate::particle::{Particle, ParticleState};
use crate::vec2::{Vec2, COORD_MAX, ONE, V2};
use crate::arith::{div_trunc, lemma_product_bound};
use vstd::prelude::*;

verus! {

/// The number of spawns after which the spray repeats.
pub const SPRAY_PERIOD: usize = 40;

/// The angle, in tenths of a radian, at which the particle with the given
/// index is spawned. Over one period it climbs from 40 to 60 and comes back.
pub open spec fn spawn_angle_of(index: int) -> int {
    let dir = index % (SPRAY_PERIOD as int);
    if dir > 20 {
        80 - dir
    } else {
        dir + 40
    }
}

/// The vector of length `ONE` at an angle of `tenths` tenths of a radian,
/// each coordinate rounded to the nearest integer. Angles below 40 count as
/// 40 and angles above 60 as 60.
pub open spec fn unit_vector(tenths: int) -> V2 {
    if tenths <= 40 {
        V2 { x: -42837, y: -49598 }
    } else if tenths <= 41 {
        V2 { x: -37672, y: -53627 }
    } else if tenths <= 42 {
        V2 { x: -32130, y: -57120 }
    } else if tenths <= 43 {
        V2 { x: -26267, y: -60042 }
    } else if tenths <= 44 {
        V2 { x: -20141, y: -62364 }
    } else if tenths <= 45 {
        V2 { x: -13815, y: -64063 }
    } else if tenths <= 46 {
        V2 { x: -7350, y: -65123 }
    } else if tenths <= 47 {
        V2 { x: -812, y: -65531 }
    } else if tenths <= 48 {
        V2 { x: 5734, y: -65285 }
    } else if tenths <= 49 {
        V2 { x: 12223, y: -64386 }
    } else if tenths <= 50 {
        V2 { x: 18590, y: -62844 }
    } else if tenths <= 51 {
        V2 { x: 24771, y: -60674 }
    } else if tenths <= 52 {
        V2 { x: 30705, y: -57898 }
    } else if tenths <= 53 {
        V2 { x: 36331, y: -54543 }
    } else if tenths <= 54 {
        V2 { x: 41595, y: -50644 }
    } else if tenths <= 55 {
        V2 { x: 46443, y: -46238 }
    } else if tenths <= 56 {
        V2 { x: 50827, y: -41371 }
    } else if tenths <= 57 {
        V2 { x: 54704, y: -36090 }
    } else if tenths <= 58 {
        V2 { x: 58033, y: -30448 }
    } else if tenths <= 59 {
        V2 { x: 60783, y: -24502 }
    } else {
        V2 { x: 62926, y: -18312 }
    }
}

/// A particle is due on the frames whose index the cadence divides, as long
/// as the simulation is not full.
pub open spec fn spawn_due(frame: int, count: int, cfg: Config) -> bool {
    frame % (cfg.spawn_cadence as int) == 0 && count < cfg.max_particles
}

/// The particle that is spawned at `pos` in direction `dir` with the given
/// speed: its old position lies ahead of it by `speed * dir / ONE`.
pub open spec fn spawned(pos: V2, dir: V2, speed: int) -> ParticleState {
    ParticleState {
        pos: pos.saturated(),
        old_pos: pos.plus(dir.scaled(speed, ONE as int)).saturated(),
        acceleration: V2 { x: 0, y: 0 },
    }
}

/// The angle at which the particle with the given index is spawned.
pub fn spawn_angle(index: usize) -> (tenths: u32)
    ensures
        tenths == spawn_angle_of(index as int),
        40 <= tenths <= 60,
{
    let dir = (index % SPRAY_PERIOD) as u32;
    if dir > 20 {
        80 - dir
    } else {
        dir + 40
    }
}

/// The unit vector at the given angle.
pub fn direction(tenths: u32) -> (d: Vec2)
    ensures
        d@ == unit_vector(tenths as int),
{
    if tenths <= 40 {
        Vec2::new(-42837, -49598)
    } else if tenths <= 41 {
        Vec2::new(-37672, -53627)
    } else if tenths <= 42 {
        Vec2::new(-32130, -57120)
    } else if tenths <= 43 {
        Vec2::new(-26267, -60042)
    } else if tenths <= 44 {
        Vec2::new(-20141, -62364)
    } else if tenths <= 45 {
        Vec2::new(-13815, -64063)
    } else if tenths <= 46 {
        Vec2::new(-7350, -65123)
    } else if tenths <= 47 {
        Vec2::new(-812, -65531)
    } else if tenths <= 48 {
        Vec2::new(5734, -65285)
    } else if tenths <= 49 {
        Vec2::new(12223, -64386)
    } else if tenths <= 50 {
        Vec2::new(18590, -62844)
    } else if tenths <= 51 {
        Vec2::new(24771, -60674)
    } else if tenths <= 52 {
        Vec2::new(30705, -57898)
    } else if tenths <= 53 {
        Vec2::new(36331, -54543)
    } else if tenths <= 54 {
        Vec2::new(41595, -50644)
    } else if tenths <= 55 {
        Vec2::new(46443, -46238)
    } else if tenths <= 56 {
        Vec2::new(50827, -41371)
    } else if tenths <= 57 {
        Vec2::new(54704, -36090)
    } else if tenths <= 58 {
        Vec2::new(58033, -30448)
    } else if tenths <= 59 {
        Vec2::new(60783, -24502)
    } else {
        Vec2::new(62926, -18312)
    }
}

/// The direction in which the particle with the given index is spawned.
pub fn spawn_direction(index: usize) -> (d: Vec2)
    ensures
        d@ == unit_vector(spawn_angle_of(index as int)),
{
    direction(spawn_angle(index))
}

/// Whether a particle is due on this frame.
pub fn should_spawn(frame: u32, count: usize, cfg: &Config) -> (due: bool)
    requires
        cfg.spawn_cadence >= 1,
    ensures
        due == spawn_due(frame as int, count as int, *cfg),
{
    frame % cfg.spawn_cadence == 0 && count < cfg.max_particles
}

/// Makes the particle that is spawned at `(x, y)` in direction `dir`.
pub fn make_spawned(x: i64, y: i64, dir: Vec2, speed: i64) -> (p: Particle)
    requires
        0 <= speed <= COORD_MAX,
    ensures
        p@ == spawned(V2 { x: x as int, y: y as int }, dir@, speed as int),
{
    proof {
        lemma_product_bound(
            dir.x as int,
            speed as int,
            0x8000_0000_0000_0000,
            COORD_MAX as int,
        );
        lemma_product_bound(
            dir.y as int,
            speed as int,
            0x8000_0000_0000_0000,
            COORD_MAX as int,
        );
    }
    let vx = div_trunc(dir.x as i128 * speed as i128, ONE as i128);
    let vy = div_trunc(dir.y as i128 * speed as i128, ONE as i128);
    proof {
        crate::arith::lemma_div_toward_zero(dir.x * speed, ONE as int);
        crate::arith::lemma_div_toward_zero(dir.y * speed, ONE as int);
    }
    let pos = Vec2::saturating(x as i128, y as i128);
    let old_pos = Vec2::saturating(x as i128 + vx, y as i128 + vy);
    Particle::from_parts(pos, old_pos, Vec2::new(0, 0))
}

/// Every direction of the spray has a length within one unit of `ONE` and
/// points upwards, so that a spawned particle starts downwards.
pub proof fn lemma_unit_vector(tenths: int)
    ensures
        (ONE - 1) * (ONE - 1) <= unit_vector(tenths).norm_sq() <= (ONE + 1) * (ONE + 1),
        unit_vector(tenths).y < 0,
{
    let v = unit_vector(tenths);
    if tenths <= 40 {
        assert(v.x * v.x + v.y * v.y == 4294970173) by (nonlinear_arith)
            requires
                v.x == -42837,
                v.y == -49598,
        ;
    } else if tenths <= 41 {
        assert(v.x * v.x + v.y * v.y == 4295034713) by (nonlinear_arith)
            requires
                v.x == -37672,
                v.y == -53627,
        ;
    } else if tenths <= 42 {
        assert(v.x * v.x + v.y * v.y == 4295031300) by (nonlinear_arith)
            requires
                v.x == -32130,
                v.y == -57120,
        ;
    } else if tenths <= 43 {
        assert(v.x * v.x + v.y * v.y == 4294997053) by (nonlinear_arith)
            requires
                v.x == -26267,
                v.y == -60042,
        ;
    } else if tenths <= 44 {
        assert(v.x * v.x + v.y * v.y == 4294928377) by (nonlinear_arith)
            requires
                v.x == -20141,
                v.y == -62364,
        ;
    } else if tenths <= 45 {
        assert(v.x * v.x + v.y * v.y == 4294922194) by (nonlinear_arith)
            requires
                v.x == -13815,
                v.y == -64063,
        ;
    } else if tenths <= 46 {
        assert(v.x * v.x + v.y * v.y == 4295027629) by (nonlinear_arith)
            requires
                v.x == -7350,
                v.y == -65123,
        ;
    } else if tenths <= 47 {
        assert(v.x * v.x + v.y * v.y == 4294971305) by (nonlinear_arith)
            requires
                v.x == -812,
                v.y == -65531,
        ;
    } else if tenths <= 48 {
        assert(v.x * v.x + v.y * v.y == 4295009981) by (nonlinear_arith)
            requires
                v.x == 5734,
                v.y == -65285,
        ;
    } else if tenths <= 49 {
        assert(v.x * v.x + v.y * v.y == 4294958725) by (nonlinear_arith)
            requires
                v.x == 12223,
                v.y == -64386,
        ;
    } else if tenths <= 50 {
        assert(v.x * v.x + v.y * v.y == 4294956436) by (nonlinear_arith)
            requires
                v.x == 18590,
                v.y == -62844,
        ;
    } else if tenths <= 51 {
        assert(v.x * v.x + v.y * v.y == 4294936717) by (nonlinear_arith)
            requires
                v.x == 24771,
                v.y == -60674,
        ;
    } else if tenths <= 52 {
        assert(v.x * v.x + v.y * v.y == 4294975429) by (nonlinear_arith)
            requires
                v.x == 30705,
                v.y == -57898,
        ;
    } else if tenths <= 53 {
        assert(v.x * v.x + v.y * v.y == 4294880410) by (nonlinear_arith)
            requires
                v.x == 36331,
                v.y == -54543,
        ;
    } else if tenths <= 54 {
        assert(v.x * v.x + v.y * v.y == 4294958761) by (nonlinear_arith)
            requires
                v.x == 41595,
                v.y == -50644,
        ;
    } else if tenths <= 55 {
        assert(v.x * v.x + v.y * v.y == 4294904893) by (nonlinear_arith)
            requires
                v.x == 46443,
                v.y == -46238,
        ;
    } else if tenths <= 56 {
        assert(v.x * v.x + v.y * v.y == 4294943570) by (nonlinear_arith)
            requires
                v.x == 50827,
                v.y == -41371,
        ;
    } else if tenths <= 57 {
        assert(v.x * v.x + v.y * v.y == 4295015716) by (nonlinear_arith)
            requires
                v.x == 54704,
                v.y == -36090,
        ;
    } else if tenths <= 58 {
        assert(v.x * v.x + v.y * v.y == 4294909793) by (nonlinear_arith)
            requires
                v.x == 58033,
                v.y == -30448,
        ;
    } else if tenths <= 59 {
        assert(v.x * v.x + v.y * v.y == 4294921093) by (nonlinear_arith)
            requires
                v.x == 60783,
                v.y == -24502,
        ;
    } else {
        assert(v.x * v.x + v.y * v.y == 4295010820) by (nonlinear_arith)
            requires
                v.x == 62926,
                v.y == -18312,
        ;
    }
}

/// The spray repeats after `SPRAY_PERIOD` spawns and its angle stays
/// between 40 and 60 tenths of a radian.
pub proof fn lemma_spawn_angle_periodic(index: int)
    requires
        0 <= index,
    ensures
        40 <= spawn_angle_of(index) <= 60,
        spawn_angle_of(index + SPRAY_PERIOD) == spawn_angle_of(index),
{
}

} // verus!
