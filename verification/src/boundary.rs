//! The circular wall: a particle that pokes through it is put back onto the
//! allowed disc and bounces.

use crate::arith::{
    abs, ceil_sqrt, div_trunc, floor_sqrt, isqrt_ceil, lemma_ceil_sqrt, lemma_div_toward_zero,
    lemma_floor_sqrt_exists, lemma_product_bound, lemma_square_monotone,
    lemma_square_of_product, lemma_square_strictly_monotone,
};
use crate::config::Config;
use crate::particle::{Particle, ParticleState};
use crate::vec2::{
    lemma_coordinate_below_length, lemma_reflect_parallel, lemma_scaled_down, lemma_scaled_norm,
    reflect,
    reflect_vec2, Vec2, COORD_MAX, ONE, V2, WIDE_MAX,
};
use vstd::prelude::*;

verus! {

/// The centre of the particle is farther from the centre of the container
/// than the container's radius less the particle's radius.
pub open spec fn outside(p: ParticleState, cfg: Config) -> bool {
    p.pos.minus(cfg.container_center@).norm_sq() > cfg.reach() * cfg.reach()
}

/// The vector `d` shortened along its own direction to a length of at most
/// `reach`: each coordinate times `reach` over the length of `d` rounded up,
/// rounded toward zero.
pub open spec fn projected(d: V2, reach: int) -> V2 {
    d.scaled(reach, ceil_sqrt(d.norm_sq()))
}

/// Where the wall puts a particle that is outside: on the radius through
/// it, on the allowed disc.
pub open spec fn wall_position(p: ParticleState, cfg: Config) -> V2 {
    cfg.container_center@.plus(projected(p.pos.minus(cfg.container_center@), cfg.reach()))
}

/// The particle after the wall acted on it. A particle on or inside the
/// allowed disc is left as it is. Any other is moved back along the radius
/// through it, and the velocity that it arrived with is mirrored at the wall
/// and shortened by the damping factor: its old position is put where the
/// new position less that velocity lies.
pub open spec fn constrain(p: ParticleState, cfg: Config) -> ParticleState {
    if !outside(p, cfg) {
        p
    } else {
        let pos = wall_position(p, cfg);
        let bounce = reflect(p.velocity(), p.pos.minus(cfg.container_center@)).scaled(
            cfg.damping_factor as int,
            ONE as int,
        );
        ParticleState { pos, old_pos: pos.minus(bounce).saturated(), ..p }
    }
}

/// A vector longer than `reach` is projected to one that is not: the
/// projection never leaves the allowed disc.
pub proof fn lemma_projected_inside(d: V2, reach: int)
    requires
        0 <= reach,
        d.norm_sq() > reach * reach,
    ensures
        projected(d, reach).norm_sq() <= reach * reach,
        projected(d, reach).within(reach),
{
    let s = d.norm_sq();
    let c = ceil_sqrt(s);
    assert(reach * reach >= 0) by (nonlinear_arith);
    lemma_ceil_sqrt(s);
    let q = projected(d, reach);
    lemma_div_toward_zero(d.x * reach, c);
    lemma_div_toward_zero(d.y * reach, c);
    let (a, b) = (abs(q.x), abs(q.y));
    let (x, y) = (abs(d.x), abs(d.y));
    assert(abs(d.x * reach) == x * reach && abs(d.y * reach) == y * reach) by (nonlinear_arith)
        requires
            0 <= reach,
            x == abs(d.x),
            y == abs(d.y),
    ;
    assert(x * x + y * y == s) by (nonlinear_arith)
        requires
            x == abs(d.x),
            y == abs(d.y),
            s == d.x * d.x + d.y * d.y,
    ;
    // (a^2 + b^2) c^2 <= (x^2 + y^2) reach^2 <= c^2 reach^2
    assert((a * c) * (a * c) <= (x * reach) * (x * reach)) by (nonlinear_arith)
        requires
            0 <= a * c <= x * reach,
    ;
    assert((b * c) * (b * c) <= (y * reach) * (y * reach)) by (nonlinear_arith)
        requires
            0 <= b * c <= y * reach,
    ;
    assert(0 <= a * c && 0 <= b * c) by (nonlinear_arith)
        requires
            0 <= a,
            0 <= b,
            0 < c,
    ;
    assert((a * a + b * b) * (c * c) <= (reach * reach) * (c * c)) by (nonlinear_arith)
        requires
            (a * c) * (a * c) <= (x * reach) * (x * reach),
            (b * c) * (b * c) <= (y * reach) * (y * reach),
            x * x + y * y == s,
            s <= c * c,
            0 <= reach,
    {
        assert((a * a + b * b) * (c * c) == (a * c) * (a * c) + (b * c) * (b * c));
        assert((x * reach) * (x * reach) + (y * reach) * (y * reach) == (x * x + y * y) * (reach
            * reach));
        assert(s * (reach * reach) <= (c * c) * (reach * reach));
    }
    assert(a * a + b * b <= reach * reach) by (nonlinear_arith)
        requires
            (a * a + b * b) * (c * c) <= (reach * reach) * (c * c),
            0 < c,
    {
        assert(c * c > 0);
    }
    assert(q.norm_sq() == a * a + b * b) by (nonlinear_arith)
        requires
            a == abs(q.x),
            b == abs(q.y),
            q.norm_sq() == q.x * q.x + q.y * q.y,
    ;
    lemma_coordinate_below_length(q, reach);
}

/// The projection lands on the wall up to rounding: a vector longer than
/// `reach` is projected to one whose length is more than `reach - 3`.
pub proof fn lemma_projected_near_wall(d: V2, reach: int)
    requires
        3 <= reach,
        d.norm_sq() > reach * reach,
    ensures
        (reach - 3) * (reach - 3) <= projected(d, reach).norm_sq(),
{
    let s = d.norm_sq();
    let c = ceil_sqrt(s);
    assert(reach * reach >= 0) by (nonlinear_arith);
    lemma_ceil_sqrt(s);
    lemma_floor_sqrt_exists(s);
    let q = projected(d, reach);
    lemma_div_toward_zero(d.x * reach, c);
    lemma_div_toward_zero(d.y * reach, c);
    let (a, b) = (abs(q.x), abs(q.y));
    let (x, y) = (abs(d.x), abs(d.y));
    assert(abs(d.x * reach) == x * reach && abs(d.y * reach) == y * reach && 0 <= x * reach && 0
        <= y * reach) by (nonlinear_arith)
        requires
            0 <= reach,
            x == abs(d.x),
            y == abs(d.y),
    ;
    assert(x * x + y * y == s && a * a + b * b == q.norm_sq()) by (nonlinear_arith)
        requires
            x == abs(d.x),
            y == abs(d.y),
            a == abs(q.x),
            b == abs(q.y),
            s == d.x * d.x + d.y * d.y,
            q.norm_sq() == q.x * q.x + q.y * q.y,
    ;
    let ns = q.norm_sq();
    // The ceiling exceeds `reach`, and its predecessor squared is below `s`.
    assert(reach <= c) by {
        if c < reach {
            lemma_square_monotone(c, reach);
        }
    }
    assert((c - 1) * (c - 1) < s) by (nonlinear_arith)
        requires
            c == if floor_sqrt(s) * floor_sqrt(s) == s {
                floor_sqrt(s)
            } else {
                floor_sqrt(s) + 1
            },
            floor_sqrt(s) * floor_sqrt(s) <= s,
            0 <= floor_sqrt(s),
            0 < c,
    ;
    lemma_square_strictly_monotone(x * reach, (a + 1) * c);
    lemma_square_strictly_monotone(y * reach, (b + 1) * c);
    lemma_scaled_norm(a + 1, b + 1, c);
    lemma_scaled_norm(x, y, reach);
    let wide = (a + 1) * (a + 1) + (b + 1) * (b + 1);
    let (cc, rr) = (c * c, reach * reach);
    assert(s * rr < wide * cc);
    assert(0 <= (reach - 1) * c <= (c - 1) * reach) by (nonlinear_arith)
        requires
            3 <= reach <= c,
    ;
    lemma_square_monotone((reach - 1) * c, (c - 1) * reach);
    lemma_square_of_product(reach - 1, c);
    lemma_square_of_product(c - 1, reach);
    let low = (reach - 1) * (reach - 1);
    assert(low * cc <= ((c - 1) * (c - 1)) * rr);
    assert(((c - 1) * (c - 1)) * rr <= s * rr) by (nonlinear_arith)
        requires
            (c - 1) * (c - 1) < s,
            0 <= rr,
    ;
    assert(low < wide) by (nonlinear_arith)
        requires
            low * cc < wide * cc,
            0 < cc,
    ;
    assert((reach - 3) * (reach - 3) <= ns) by (nonlinear_arith)
        requires
            low < wide,
            low == (reach - 1) * (reach - 1),
            wide == (a + 1) * (a + 1) + (b + 1) * (b + 1),
            ns == a * a + b * b,
            0 <= a,
            0 <= b,
            3 <= reach,
    {
        if ns < (reach - 3) * (reach - 3) {
            let u = a + b;
            let k = reach - 3;
            assert(wide == ns + 2 * u + 2);
            assert(u * u <= 2 * ns) by {
                assert((a - b) * (a - b) >= 0);
                assert(u * u + (a - b) * (a - b) == 2 * (a * a + b * b));
            }
            assert(u * u < 2 * (k * k));
            if 2 * u > 3 * k {
                assert((2 * u) * (2 * u) >= (3 * k + 1) * (3 * k + 1));
                assert((3 * k + 1) * (3 * k + 1) >= 9 * (k * k));
                assert(4 * (u * u) >= 9 * (k * k));
                assert(k * k >= 0);
            }
            assert(2 * u <= 3 * k);
            assert(wide <= k * k - 1 + 3 * k + 2);
            assert(low == k * k + 4 * k + 4);
        }
    }
}

/// Containment: after the wall acted on it, the centre of a particle is
/// no farther from the centre of the container than the container's radius
/// less the particle's radius, whatever the particle was before; and the
/// wall leaves such a particle as it is.
pub proof fn lemma_constrain_contains(p: ParticleState, cfg: Config)
    requires
        cfg.wf(),
    ensures
        !outside(constrain(p, cfg), cfg),
        constrain(p, cfg).pos.minus(cfg.container_center@).norm_sq() <= cfg.reach() * cfg.reach(),
        constrain(constrain(p, cfg), cfg) == constrain(p, cfg),
        constrain(p, cfg).pos.within(COORD_MAX as int),
{
    let c = cfg.container_center@;
    let d = p.pos.minus(c);
    if outside(p, cfg) {
        lemma_projected_inside(d, cfg.reach());
        assert(wall_position(p, cfg).minus(c) == projected(d, cfg.reach()));
    } else {
        lemma_coordinate_below_length(d, cfg.reach());
    }
}

/// The wall keeps every coordinate storable.
pub proof fn lemma_constrain_keeps_storable(p: ParticleState, cfg: Config)
    requires
        cfg.wf(),
        p.wf(),
    ensures
        constrain(p, cfg).wf(),
{
    lemma_constrain_contains(p, cfg);
}

/// Energy bleed at the wall. Let a particle outside the allowed disc have
/// arrived with a velocity `v` along the radius through it. Then the wall
/// puts its old position ahead of its new one by `v` shortened by the
/// damping factor (moved to the nearest storable point). Where that point
/// is storable the particle therefore leaves with the opposite of the
/// shortened `v`: in each coordinate the damping factor times what it came
/// with, rounded toward zero, and never faster than it came.
pub proof fn lemma_radial_bounce(p: ParticleState, cfg: Config)
    requires
        cfg.wf(),
        outside(p, cfg),
        p.velocity().cross(p.pos.minus(cfg.container_center@)) == 0,
    ensures
        ({
            let v = p.velocity();
            let kept = v.scaled(cfg.damping_factor as int, ONE as int);
            let q = constrain(p, cfg);
            &&& q.old_pos == q.pos.plus(kept).saturated()
            &&& abs(kept.x) * ONE <= abs(v.x) * cfg.damping_factor < (abs(kept.x) + 1) * ONE
            &&& abs(kept.y) * ONE <= abs(v.y) * cfg.damping_factor < (abs(kept.y) + 1) * ONE
            &&& kept.norm_sq() <= v.norm_sq()
            &&& q.pos.plus(kept).within(COORD_MAX as int) ==> q.velocity() == kept.neg()
                && q.velocity().norm_sq() <= v.norm_sq()
        }),
{
    let v = p.velocity();
    let d = p.pos.minus(cfg.container_center@);
    let kept = v.scaled(cfg.damping_factor as int, ONE as int);
    assert(cfg.reach() * cfg.reach() >= 0) by (nonlinear_arith);
    lemma_reflect_parallel(v, d);
    lemma_scaled_down(v, cfg.damping_factor as int, ONE as int);
    let q = constrain(p, cfg);
    assert(q.pos.minus(kept.neg()) == q.pos.plus(kept));
    assert(kept.neg().norm_sq() == kept.norm_sq()) by (nonlinear_arith)
        requires
            kept.neg().x == -kept.x,
            kept.neg().y == -kept.y,
            kept.neg().norm_sq() == kept.neg().x * kept.neg().x + kept.neg().y * kept.neg().y,
            kept.norm_sq() == kept.x * kept.x + kept.y * kept.y,
    ;
}

/// Lets the wall act on one particle.
pub fn constrain_particle(p: &mut Particle, cfg: &Config)
    requires
        cfg.wf(),
    ensures
        final(p)@ == constrain(old(p)@, *cfg),
        final(p)@.wf(),
{
    let pos = p.pos();
    let old_pos = p.old_pos();
    let c = cfg.container_center;
    let reach: i128 = (cfg.container_radius - cfg.particle_radius) as i128;
    let dx: i128 = pos.x as i128 - c.x as i128;
    let dy: i128 = pos.y as i128 - c.y as i128;
    let ghost d = V2 { x: dx as int, y: dy as int };
    proof {
        lemma_product_bound(dx as int, dx as int, WIDE_MAX as int, WIDE_MAX as int);
        lemma_product_bound(dy as int, dy as int, WIDE_MAX as int, WIDE_MAX as int);
        lemma_product_bound(reach as int, reach as int, COORD_MAX as int, COORD_MAX as int);
        assert(dx * dx >= 0 && dy * dy >= 0) by (nonlinear_arith);
        assert(d == p@.pos.minus(cfg.container_center@));
    }
    let s: i128 = dx * dx + dy * dy;
    if s <= reach * reach {
        return ;
    }
    let len = isqrt_ceil(s as u128) as i128;
    proof {
        lemma_ceil_sqrt(s as int);
        lemma_projected_inside(d, reach as int);
        lemma_product_bound(dx as int, reach as int, WIDE_MAX as int, COORD_MAX as int);
        lemma_product_bound(dy as int, reach as int, WIDE_MAX as int, COORD_MAX as int);
    }
    let qx = div_trunc(dx * reach, len);
    let qy = div_trunc(dy * reach, len);
    let npos = Vec2::new((c.x as i128 + qx) as i64, (c.y as i128 + qy) as i64);
    assert(npos@ == wall_position(p@, *cfg));
    let v = Vec2::new(
        (pos.x as i128 - old_pos.x as i128) as i64,
        (pos.y as i128 - old_pos.y as i128) as i64,
    );
    let refl = reflect_vec2(v, Vec2::new(dx as i64, dy as i64));
    proof {
        lemma_product_bound(refl.x as int, cfg.damping_factor as int, 5 * WIDE_MAX, ONE as int);
        lemma_product_bound(refl.y as int, cfg.damping_factor as int, 5 * WIDE_MAX, ONE as int);
    }
    let bx = div_trunc(refl.x as i128 * cfg.damping_factor as i128, ONE as i128);
    let by = div_trunc(refl.y as i128 * cfg.damping_factor as i128, ONE as i128);
    proof {
        lemma_div_toward_zero(refl.x * cfg.damping_factor, ONE as int);
        lemma_div_toward_zero(refl.y * cfg.damping_factor, ONE as int);
    }
    let nold = Vec2::saturating(npos.x as i128 - bx, npos.y as i128 - by);
    let acc = p.acceleration();
    *p = Particle::from_parts(npos, nold, acc);
}

} // verus!
