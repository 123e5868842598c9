//! Collisions between particles: how one overlapping pair is pushed apart
//! and rebounds, and the order in which all pairs are visited.

use crate::arith::{
    abs, div_toward_zero, div_trunc, floor_sqrt, is_floor_sqrt, isqrt, lemma_div_toward_zero,
    lemma_floor_sqrt_exists, lemma_product_bound, lemma_square_monotone,
    lemma_square_of_product, lemma_square_strictly_monotone,
};
use crate::config::Config;
use crate::particle::{Particle, ParticleState};
use crate::vec2::{lemma_scaled_norm, Vec2, COORD_MAX, ONE, V2, WIDE_MAX};
use vstd::prelude::*;

verus! {

/// The centres of the two particles are closer than two radii.
pub open spec fn overlapping(a: ParticleState, b: ParticleState, cfg: Config) -> bool {
    a.pos.minus(b.pos).norm_sq() < cfg.contact_distance() * cfg.contact_distance()
}

/// The length of `d` with 16 more fractional bits than its coordinates.
pub open spec fn fine_length(d: V2) -> int {
    floor_sqrt(d.norm_sq() * (ONE * ONE))
}

/// How far each particle of an overlapping pair is moved, where `d` leads
/// from the second centre to the first: half the penetration depth along `d`.
/// Coincident centres are parted along the first axis.
pub open spec fn separation_shift(d: V2, cfg: Config) -> V2 {
    if d.norm_sq() == 0 {
        V2 { x: cfg.particle_radius as int, y: 0 }
    } else {
        d.scaled(cfg.contact_distance() * ONE - fine_length(d), 2 * fine_length(d))
    }
}

/// The direction along which a pair rebounds.
pub open spec fn collision_axis(d: V2) -> V2 {
    if d.norm_sq() == 0 {
        V2 { x: 1, y: 0 }
    } else {
        d
    }
}

/// What the rebound adds to the old position of the first particle and
/// takes from that of the second. `rel` is the velocity of the first
/// particle relative to the second and `n` the collision axis. A pair that
/// approaches along `n` exchanges the share `(1 + restitution) / 2` of the
/// approach velocity; a pair that does not approach exchanges nothing.
pub open spec fn rebound_impulse(rel: V2, n: V2, restitution: int) -> V2 {
    let approach = rel.dot(n);
    if approach < 0 {
        n.scaled(div_toward_zero(approach * (ONE + restitution), 2 * ONE), n.norm_sq())
    } else {
        V2 { x: 0, y: 0 }
    }
}

/// The two particles after their collision was resolved. A pair that does
/// not overlap is left as it is. An overlapping pair is pushed apart to the
/// contact distance, and then rebounds if it approaches.
pub open spec fn resolve_pair(a: ParticleState, b: ParticleState, cfg: Config) -> (
    ParticleState,
    ParticleState,
) {
    let d = a.pos.minus(b.pos);
    if !overlapping(a, b, cfg) {
        (a, b)
    } else {
        let shift = separation_shift(d, cfg);
        let pa = a.pos.plus(shift).saturated();
        let pb = b.pos.minus(shift).saturated();
        let rel = pa.minus(a.old_pos).minus(pb.minus(b.old_pos));
        let j = rebound_impulse(rel, collision_axis(d), cfg.restitution_coefficient as int);
        (
            ParticleState { pos: pa, old_pos: a.old_pos.plus(j).saturated(), ..a },
            ParticleState { pos: pb, old_pos: b.old_pos.minus(j).saturated(), ..b },
        )
    }
}

/// The particles after the pair `(i, j)` was resolved in place.
pub open spec fn resolve_at(ps: Seq<ParticleState>, i: int, j: int, cfg: Config) -> Seq<
    ParticleState,
> {
    let (a, b) = resolve_pair(ps[i], ps[j], cfg);
    ps.update(i, a).update(j, b)
}

/// The particles after the pairs `(i, j)`, `(i, j + 1)`, ... up to
/// `(i, n - 1)` were resolved one after the other, each on the outcome of
/// the one before.
pub open spec fn resolve_row(ps: Seq<ParticleState>, i: int, j: int, n: int, cfg: Config) -> Seq<
    ParticleState,
>
    decreases n - j,
{
    if j >= n {
        ps
    } else {
        resolve_row(resolve_at(ps, i, j, cfg), i, j + 1, n, cfg)
    }
}

/// The particles after the rows `i`, `i + 1`, ... were resolved in turn.
pub open spec fn resolve_rows(ps: Seq<ParticleState>, i: int, n: int, cfg: Config) -> Seq<
    ParticleState,
>
    decreases n - i,
{
    if i >= n {
        ps
    } else {
        resolve_rows(resolve_row(ps, i, i + 1, n, cfg), i + 1, n, cfg)
    }
}

/// One pass over all pairs `(i, j)` with `i < j`, in lexicographic order.
pub open spec fn resolve_all(ps: Seq<ParticleState>, cfg: Config) -> Seq<ParticleState> {
    resolve_rows(ps, 0, ps.len() as int, cfg)
}

/// The fine length of a short non-zero vector is at least `ONE` and less
/// than the bound of the vector's length, in the same scale.
pub proof fn lemma_fine_length_bounds(d: V2, m: int)
    requires
        0 < d.norm_sq() < m * m,
        0 < m,
    ensures
        ONE <= fine_length(d) < m * ONE,
        is_floor_sqrt(d.norm_sq() * (ONE * ONE), fine_length(d)),
{
    let s = d.norm_sq();
    let sq = s * (ONE * ONE);
    let e = ONE as int;
    assert(e * e <= sq && sq < (m * e) * (m * e)) by (nonlinear_arith)
        requires
            0 < s < m * m,
            sq == s * (e * e),
            e > 0,
    {
        assert(s >= 1);
        assert(s + 1 <= m * m);
        assert((s + 1) * (e * e) <= (m * m) * (e * e));
        assert((m * m) * (e * e) == (m * e) * (m * e));
    }
    lemma_floor_sqrt_exists(sq);
    let q = floor_sqrt(sq);
    assert(is_floor_sqrt(sq, q));
    if q < e {
        assert((q + 1) * (q + 1) <= e * e) by (nonlinear_arith)
            requires
                0 <= q + 1 <= e,
        ;
    }
    if q >= m * e {
        assert((m * e) * (m * e) <= q * q) by (nonlinear_arith)
            requires
                0 <= m * e <= q,
        ;
    }
}

/// A pair whose centres are at least two radii apart is left as it is, so
/// resolving it never brings the two closer.
pub proof fn lemma_separated_pair_untouched(a: ParticleState, b: ParticleState, cfg: Config)
    requires
        !overlapping(a, b, cfg),
    ensures
        resolve_pair(a, b, cfg) == (a, b),
{
}

/// One coordinate of the shift: `x` is a coordinate of the separation, `q`
/// its fine length and `q + t` the fine contact distance. The shifted
/// coordinate keeps its sign, does not shrink, and scales `x` by
/// `(q + t) / q` up to two units.
pub proof fn lemma_shift_coordinate(x: int, t: int, q: int)
    requires
        0 < q,
        0 < t,
    ensures
        ({
            let a = div_toward_zero(x * t, 2 * q);
            let nx = x + 2 * a;
            &&& abs(nx) == abs(x) + 2 * abs(a)
            &&& abs(a) * (2 * q) <= abs(x) * t
            &&& abs(nx) * q <= abs(x) * (q + t)
            &&& (abs(nx) + 2) * q > abs(x) * (q + t)
        }),
{
    let a = div_toward_zero(x * t, 2 * q);
    lemma_div_toward_zero(x * t, 2 * q);
    assert(abs(x * t) == abs(x) * t && (x >= 0 ==> x * t >= 0) && (x <= 0 ==> x * t <= 0))
        by (nonlinear_arith)
        requires
            0 < t,
    ;
    let (aa, ax) = (abs(a), abs(x));
    assert((ax + 2 * aa) * q <= ax * (q + t) && (ax + 2 * aa + 2) * q > ax * (q + t))
        by (nonlinear_arith)
        requires
            aa * (2 * q) <= ax * t,
            ax * t < (aa + 1) * (2 * q),
    ;
}

/// Where an overlapping pair ends up. Let `d` lead from the second centre to
/// the first, shorter than the contact distance `m`, and let each particle
/// be moved by the shift, the first along `d` and the second against it.
/// Then neither moves by more than a radius in a coordinate, the new
/// separation is no shorter than `d`, and its length lies between `m - 3`
/// and `m (1 + 1 / ONE)`: the pair ends tangent up to rounding.
pub proof fn lemma_separation(d: V2, cfg: Config)
    requires
        cfg.wf(),
        d.norm_sq() < cfg.contact_distance() * cfg.contact_distance(),
    ensures
        ({
            let shift = separation_shift(d, cfg);
            let n = d.plus(shift).plus(shift);
            let m = cfg.contact_distance();
            &&& shift.within(cfg.particle_radius as int)
            &&& d.norm_sq() <= n.norm_sq()
            &&& (m - 3) * (m - 3) <= n.norm_sq()
            &&& n.norm_sq() * (ONE * ONE) <= (m * m) * ((ONE + 1) * (ONE + 1))
        }),
{
    let shift = separation_shift(d, cfg);
    let n = d.plus(shift).plus(shift);
    let m = cfg.contact_distance();
    let r = cfg.particle_radius as int;
    let e = ONE as int;
    let s = d.norm_sq();
    assert(s >= 0) by (nonlinear_arith)
        requires
            s == d.x * d.x + d.y * d.y,
    ;
    if s == 0 {
        assert(d.x == 0 && d.y == 0) by (nonlinear_arith)
            requires
                d.x * d.x + d.y * d.y == 0,
        ;
        assert(n == V2 { x: m, y: 0 });
        assert(n.norm_sq() == m * m);
        assert((m - 3) * (m - 3) <= m * m) by (nonlinear_arith)
            requires
                m >= 2,
        ;
        assert((m * m) * (e * e) <= (m * m) * ((e + 1) * (e + 1))) by (nonlinear_arith)
            requires
                e > 0,
        ;
    } else {
        lemma_fine_length_bounds(d, m);
        let q = fine_length(d);
        let t = m * e - q;
        lemma_shift_coordinate(d.x, t, q);
        lemma_shift_coordinate(d.y, t, q);
        let (x, y) = (abs(d.x), abs(d.y));
        let (a, b) = (abs(shift.x), abs(shift.y));
        let (nx, ny) = (abs(n.x), abs(n.y));
        let big = m * e;
        assert(q + t == big);
        assert(x * x + y * y == s && nx * nx + ny * ny == n.norm_sq()) by (nonlinear_arith)
            requires
                x == abs(d.x),
                y == abs(d.y),
                nx == abs(n.x),
                ny == abs(n.y),
                s == d.x * d.x + d.y * d.y,
                n.norm_sq() == n.x * n.x + n.y * n.y,
        ;
        let ns = n.norm_sq();
        // No coordinate shrinks.
        lemma_square_monotone(x, nx);
        lemma_square_monotone(y, ny);
        // Each coordinate of `d`, in the fine scale, is at most `q`.
        let sq = s * (e * e);
        assert(x * e <= q && y * e <= q) by (nonlinear_arith)
            requires
                x * x + y * y == s,
                sq == s * (e * e),
                sq < (q + 1) * (q + 1),
                0 <= x,
                0 <= y,
                0 < e,
                0 < q,
        {
            assert((x * e) * (x * e) == (x * x) * (e * e));
            assert((y * e) * (y * e) == (y * y) * (e * e));
            assert((x * x) * (e * e) <= s * (e * e));
            assert((y * y) * (e * e) <= s * (e * e));
            if x * e > q {
                assert((x * e) * (x * e) >= (q + 1) * (q + 1));
            }
            if y * e > q {
                assert((y * e) * (y * e) >= (q + 1) * (q + 1));
            }
        }
        // The shift is at most a radius.
        assert(2 * a <= m - 1 && 2 * b <= m - 1) by (nonlinear_arith)
            requires
                a * (2 * q) <= x * t,
                b * (2 * q) <= y * t,
                x * e <= q,
                y * e <= q,
                t == m * e - q,
                e <= q,
                0 < e,
                0 < t,
                0 <= a,
                0 <= b,
                0 <= x,
                0 <= y,
        {
            assert((2 * a * e) * q <= (x * e) * t);
            assert((x * e) * t <= q * t);
            assert((2 * a * e) * q <= t * q);
            assert(2 * a * e <= t);
            assert((2 * b * e) * q <= (y * e) * t);
            assert((y * e) * t <= q * t);
            assert((2 * b * e) * q <= t * q);
            assert(2 * b * e <= t);
            assert(t <= (m - 1) * e);
        }
        // From above: ns q^2 <= s big^2 < (q + 1)^2 m^2 <= ((e + 1) q)^2 m^2 / e^2.
        assert(q * q > 0 && m * m >= 0 && e * e > 0) by (nonlinear_arith)
            requires
                0 < q,
                0 < e,
        ;
        assert(0 <= nx * q && 0 <= ny * q && 0 <= x * big && 0 <= y * big) by (nonlinear_arith)
            requires
                0 <= nx,
                0 <= ny,
                0 <= x,
                0 <= y,
                0 < q,
                0 < big,
        ;
        lemma_square_monotone(nx * q, x * big);
        lemma_square_monotone(ny * q, y * big);
        lemma_scaled_norm(nx, ny, q);
        lemma_scaled_norm(x, y, big);
        lemma_square_of_product(m, e);
        let (mm, ee, qq) = (m * m, e * e, q * q);
        assert(big * big == mm * ee);
        assert(s * (mm * ee) == sq * mm) by (nonlinear_arith)
            requires
                sq == s * ee,
        ;
        assert(ns * qq <= sq * mm);
        assert(((q + 1) * e) * ((q + 1) * e) <= ((e + 1) * q) * ((e + 1) * q)) by (nonlinear_arith)
            requires
                0 < e <= q,
        {
            assert(0 <= (q + 1) * e <= (e + 1) * q);
        }
        lemma_square_of_product(q + 1, e);
        lemma_square_of_product(e + 1, q);
        let top = (e + 1) * (e + 1);
        let qq1 = (q + 1) * (q + 1);
        assert(qq1 * ee <= top * qq);
        assert(sq * mm <= qq1 * mm) by (nonlinear_arith)
            requires
                sq < qq1,
                0 <= mm,
        ;
        assert((ns * ee) * qq <= (mm * top) * qq) by (nonlinear_arith)
            requires
                ns * qq <= sq * mm,
                sq * mm <= qq1 * mm,
                qq1 * ee <= top * qq,
                0 <= mm,
                0 < ee,
        {
            assert((ns * ee) * qq == (ns * qq) * ee);
            assert((ns * qq) * ee <= (qq1 * mm) * ee);
            assert((qq1 * mm) * ee == (qq1 * ee) * mm);
            assert((qq1 * ee) * mm <= (top * qq) * mm);
            assert((top * qq) * mm == (mm * top) * qq);
        }
        assert(ns * ee <= mm * top) by (nonlinear_arith)
            requires
                (ns * ee) * qq <= (mm * top) * qq,
                qq > 0,
        ;
        // From below: ((nx + 2)^2 + (ny + 2)^2) q^2 > s big^2 >= q^2 m^2.
        lemma_square_strictly_monotone(x * big, (nx + 2) * q);
        lemma_square_strictly_monotone(y * big, (ny + 2) * q);
        let wide = (nx + 2) * (nx + 2) + (ny + 2) * (ny + 2);
        lemma_scaled_norm(nx + 2, ny + 2, q);
        assert(sq * mm < wide * qq);
        assert(qq * mm <= sq * mm) by (nonlinear_arith)
            requires
                qq <= sq,
                0 <= mm,
        ;
        assert(wide > mm) by (nonlinear_arith)
            requires
                qq * mm < wide * qq,
                qq > 0,
        ;
        if m >= 3 {
            assert((m - 3) * (m - 3) <= ns) by (nonlinear_arith)
                requires
                    wide > m * m,
                    wide == (nx + 2) * (nx + 2) + (ny + 2) * (ny + 2),
                    ns == nx * nx + ny * ny,
                    0 <= nx,
                    0 <= ny,
                    m >= 3,
            {
                if ns < (m - 3) * (m - 3) {
                    let u = nx + ny;
                    let k = m - 3;
                    assert(wide == ns + 4 * u + 8);
                    assert(u * u <= 2 * ns) by {
                        assert((nx - ny) * (nx - ny) >= 0);
                        assert(u * u + (nx - ny) * (nx - ny) == 2 * (nx * nx + ny * ny));
                    }
                    assert(u * u < 2 * (k * k));
                    if 2 * u > 3 * k {
                        assert((2 * u) * (2 * u) >= (3 * k + 1) * (3 * k + 1));
                        assert((3 * k + 1) * (3 * k + 1) >= 9 * (k * k));
                        assert(4 * (u * u) >= 9 * (k * k));
                        assert(k * k >= 0);
                    }
                    assert(4 * u <= 6 * k);
                    assert(wide <= k * k - 1 + 6 * k + 8);
                    assert(k * k + 6 * k + 7 == m * m - 2);
                }
            }
        } else {
            assert(m == 2);
            assert(ns >= 1);
        }
    }
}

/// What the rebound does to the approach. Let `approach` be the velocity
/// of the first particle relative to the second, along the collision axis
/// and in the scale of the axis. A pair that does not approach keeps it. A
/// pair that approaches exchanges twice the share `k`, which is
/// `approach (1 + restitution) / 2` rounded toward zero, so that it parts
/// with `restitution` times the speed it approached with, up to rounding.
pub proof fn lemma_rebound(rel: V2, n: V2, restitution: int)
    requires
        n.norm_sq() > 0,
        0 <= restitution <= ONE,
    ensures
        ({
            let approach = rel.dot(n);
            let j = rebound_impulse(rel, n, restitution);
            let after = rel.minus(j).minus(j).dot(n);
            let k = div_toward_zero(approach * (ONE + restitution), 2 * ONE);
            &&& approach >= 0 ==> after == approach
            &&& approach < 0 ==> abs(2 * k * ONE - approach * (ONE + restitution)) < 2 * ONE
            &&& approach < 0 ==> abs(after - (approach - 2 * k)) < 2 * (abs(n.x) + abs(n.y))
        }),
{
    let approach = rel.dot(n);
    let j = rebound_impulse(rel, n, restitution);
    let after = rel.minus(j).minus(j).dot(n);
    let jn = j.dot(n);
    assert(after == approach - 2 * jn) by (nonlinear_arith)
        requires
            after == (rel.x - j.x - j.x) * n.x + (rel.y - j.y - j.y) * n.y,
            approach == rel.x * n.x + rel.y * n.y,
            jn == j.x * n.x + j.y * n.y,
    ;
    if approach < 0 {
        let k = div_toward_zero(approach * (ONE + restitution), 2 * ONE);
        lemma_div_toward_zero(approach * (ONE + restitution), 2 * ONE);
        let nn = n.norm_sq();
        lemma_div_toward_zero(n.x * k, nn);
        lemma_div_toward_zero(n.y * k, nn);
        let ex = n.x * k - j.x * nn;
        let ey = n.y * k - j.y * nn;
        assert(abs(ex) < nn && abs(ey) < nn) by (nonlinear_arith)
            requires
                ex == n.x * k - j.x * nn,
                ey == n.y * k - j.y * nn,
                abs(j.x) * nn <= abs(n.x * k),
                abs(n.x * k) < (abs(j.x) + 1) * nn,
                n.x * k >= 0 ==> j.x >= 0,
                n.x * k <= 0 ==> j.x <= 0,
                abs(j.y) * nn <= abs(n.y * k),
                abs(n.y * k) < (abs(j.y) + 1) * nn,
                n.y * k >= 0 ==> j.y >= 0,
                n.y * k <= 0 ==> j.y <= 0,
                nn > 0,
        ;
        let err = ex * n.x + ey * n.y;
        assert(nn * jn == k * nn - err) by (nonlinear_arith)
            requires
                jn == j.x * n.x + j.y * n.y,
                ex == n.x * k - j.x * nn,
                ey == n.y * k - j.y * nn,
                err == ex * n.x + ey * n.y,
                nn == n.x * n.x + n.y * n.y,
        {
            assert((j.x * nn) * n.x == (n.x * k - ex) * n.x);
            assert((j.y * nn) * n.y == (n.y * k - ey) * n.y);
            assert((n.x * k) * n.x + (n.y * k) * n.y == k * (n.x * n.x + n.y * n.y));
            assert(nn * (j.x * n.x + j.y * n.y) == (j.x * nn) * n.x + (j.y * nn) * n.y);
        }
        let width = abs(n.x) + abs(n.y);
        assert(width > 0) by (nonlinear_arith)
            requires
                n.x * n.x + n.y * n.y > 0,
                width == abs(n.x) + abs(n.y),
        ;
        assert(abs(err) < nn * width) by (nonlinear_arith)
            requires
                err == ex * n.x + ey * n.y,
                abs(ex) < nn,
                abs(ey) < nn,
                width == abs(n.x) + abs(n.y),
                width > 0,
                nn > 0,
        {
            assert(abs(ex * n.x) == abs(ex) * abs(n.x));
            assert(abs(ey * n.y) == abs(ey) * abs(n.y));
            assert(abs(ex) * abs(n.x) <= (nn - 1) * abs(n.x));
            assert(abs(ey) * abs(n.y) <= (nn - 1) * abs(n.y));
            assert((nn - 1) * abs(n.x) + (nn - 1) * abs(n.y) == (nn - 1) * width);
            assert((nn - 1) * width < nn * width);
        }
        assert(abs(jn - k) < width) by (nonlinear_arith)
            requires
                nn * jn == k * nn - err,
                abs(err) < nn * width,
                nn > 0,
        {
            assert(nn * (jn - k) == -err);
            assert(abs(nn * (jn - k)) == nn * abs(jn - k));
        }
        assert((2 * k) * ONE == k * (2 * ONE)) by (nonlinear_arith);
    }
}

/// How resolving moves an overlapping pair whose centres are at least a
/// radius away from the edge of the storable plane: the first centre by the
/// shift, the second by its opposite, so that the two end tangent up to
/// rounding and no closer than they were.
pub proof fn lemma_resolved_pair_distance(a: ParticleState, b: ParticleState, cfg: Config)
    requires
        cfg.wf(),
        overlapping(a, b, cfg),
        a.pos.within(COORD_MAX - cfg.particle_radius),
        b.pos.within(COORD_MAX - cfg.particle_radius),
    ensures
        ({
            let d = a.pos.minus(b.pos);
            let n = resolve_pair(a, b, cfg).0.pos.minus(resolve_pair(a, b, cfg).1.pos);
            let m = cfg.contact_distance();
            &&& n == d.plus(separation_shift(d, cfg)).plus(separation_shift(d, cfg))
            &&& d.norm_sq() <= n.norm_sq()
            &&& (m - 3) * (m - 3) <= n.norm_sq()
            &&& n.norm_sq() * (ONE * ONE) <= (m * m) * ((ONE + 1) * (ONE + 1))
        }),
{
    lemma_separation(a.pos.minus(b.pos), cfg);
}

/// Every particle holds storable coordinates only.
pub open spec fn all_wf(ps: Seq<ParticleState>) -> bool {
    forall|k: int| 0 <= k < ps.len() ==> (#[trigger] ps[k]).wf()
}

/// Resolving a pair keeps every coordinate storable.
pub proof fn lemma_resolve_pair_keeps_storable(a: ParticleState, b: ParticleState, cfg: Config)
    requires
        a.wf(),
        b.wf(),
    ensures
        resolve_pair(a, b, cfg).0.wf(),
        resolve_pair(a, b, cfg).1.wf(),
{
}

/// Resolving the pairs of a row keeps every coordinate storable.
pub proof fn lemma_resolve_row_keeps_storable(
    ps: Seq<ParticleState>,
    i: int,
    j: int,
    n: int,
    cfg: Config,
)
    requires
        0 <= i < j,
        n <= ps.len(),
        all_wf(ps),
    ensures
        all_wf(resolve_row(ps, i, j, n, cfg)),
    decreases n - j,
{
    if j < n {
        lemma_resolve_pair_keeps_storable(ps[i], ps[j], cfg);
        lemma_resolve_row_keeps_storable(resolve_at(ps, i, j, cfg), i, j + 1, n, cfg);
    }
}

/// Resolving rows keeps every coordinate storable.
pub proof fn lemma_resolve_rows_keeps_storable(ps: Seq<ParticleState>, i: int, n: int, cfg: Config)
    requires
        0 <= i,
        n <= ps.len(),
        all_wf(ps),
    ensures
        all_wf(resolve_rows(ps, i, n, cfg)),
    decreases n - i,
{
    if i < n {
        lemma_resolve_row_len(ps, i, i + 1, n, cfg);
        lemma_resolve_row_keeps_storable(ps, i, i + 1, n, cfg);
        lemma_resolve_rows_keeps_storable(resolve_row(ps, i, i + 1, n, cfg), i + 1, n, cfg);
    }
}

/// Resolving the pairs of a row neither adds nor removes a particle.
pub proof fn lemma_resolve_row_len(ps: Seq<ParticleState>, i: int, j: int, n: int, cfg: Config)
    requires
        0 <= i < j,
        n <= ps.len(),
    ensures
        resolve_row(ps, i, j, n, cfg).len() == ps.len(),
    decreases n - j,
{
    if j < n {
        lemma_resolve_row_len(resolve_at(ps, i, j, cfg), i, j + 1, n, cfg);
    }
}

/// Resolving rows neither adds nor removes a particle.
pub proof fn lemma_resolve_rows_len(ps: Seq<ParticleState>, i: int, n: int, cfg: Config)
    requires
        0 <= i,
        n <= ps.len(),
    ensures
        resolve_rows(ps, i, n, cfg).len() == ps.len(),
    decreases n - i,
{
    if i < n {
        lemma_resolve_row_len(ps, i, i + 1, n, cfg);
        lemma_resolve_rows_len(resolve_row(ps, i, i + 1, n, cfg), i + 1, n, cfg);
    }
}

/// Resolves the collision of two particles in place.
pub fn resolve_particles(a: &mut Particle, b: &mut Particle, cfg: &Config)
    requires
        cfg.wf(),
    ensures
        (final(a)@, final(b)@) == resolve_pair(old(a)@, old(b)@, *cfg),
        final(a)@.wf(),
        final(b)@.wf(),
{
    let pa = a.pos();
    let pb = b.pos();
    let oa = a.old_pos();
    let ob = b.old_pos();
    let dx: i128 = pa.x as i128 - pb.x as i128;
    let dy: i128 = pa.y as i128 - pb.y as i128;
    let m: i128 = 2 * (cfg.particle_radius as i128);
    let e: i128 = ONE as i128;
    let ghost d = V2 { x: dx as int, y: dy as int };
    proof {
        lemma_product_bound(dx as int, dx as int, WIDE_MAX as int, WIDE_MAX as int);
        lemma_product_bound(dy as int, dy as int, WIDE_MAX as int, WIDE_MAX as int);
        lemma_product_bound(m as int, m as int, WIDE_MAX as int, WIDE_MAX as int);
        assert(dx * dx >= 0 && dy * dy >= 0) by (nonlinear_arith);
        assert(d == a@.pos.minus(b@.pos));
    }
    let s: i128 = dx * dx + dy * dy;
    if s >= m * m {
        return ;
    }
    let sx: i128;
    let sy: i128;
    let nn: i128;
    let nx: i128;
    let ny: i128;
    if s == 0 {
        sx = cfg.particle_radius as i128;
        sy = 0;
        nx = 1;
        ny = 0;
        nn = 1;
        assert(nn == nx * nx + ny * ny);
    } else {
        proof {
            lemma_fine_length_bounds(d, m as int);
            assert(s * (e * e) < 0x4_0000_0000_0000_0000_0000int * 0x1_0000_0000) by (nonlinear_arith)
                requires
                    0 < s < 0x4_0000_0000_0000_0000_0000int,
                    e == 0x1_0000,
            ;
        }
        let dq: i128 = isqrt((s * (e * e)) as u128) as i128;
        let t: i128 = m * e - dq;
        proof {
            assert(dq == fine_length(d));
            lemma_product_bound(dx as int, t as int, WIDE_MAX as int, WIDE_MAX * ONE);
            lemma_product_bound(dy as int, t as int, WIDE_MAX as int, WIDE_MAX * ONE);
        }
        sx = div_trunc(dx * t, 2 * dq);
        sy = div_trunc(dy * t, 2 * dq);
        proof {
            lemma_div_toward_zero((dx * t) as int, (2 * dq) as int);
            lemma_div_toward_zero((dy * t) as int, (2 * dq) as int);
        }
        nx = dx;
        ny = dy;
        nn = s;
        assert(nn == nx * nx + ny * ny);
    }
    let ghost shift = V2 { x: sx as int, y: sy as int };
    let ghost axis = V2 { x: nx as int, y: ny as int };
    assert(shift == separation_shift(d, *cfg));
    assert(axis == collision_axis(d));
    assert(nn == axis.norm_sq() && nn > 0);
    let na = Vec2::saturating(pa.x as i128 + sx, pa.y as i128 + sy);
    let nb = Vec2::saturating(pb.x as i128 - sx, pb.y as i128 - sy);
    let relx: i128 = (na.x as i128 - oa.x as i128) - (nb.x as i128 - ob.x as i128);
    let rely: i128 = (na.y as i128 - oa.y as i128) - (nb.y as i128 - ob.y as i128);
    proof {
        lemma_product_bound(relx as int, nx as int, 2 * WIDE_MAX, WIDE_MAX as int);
        lemma_product_bound(rely as int, ny as int, 2 * WIDE_MAX, WIDE_MAX as int);
    }
    let approach: i128 = relx * nx + rely * ny;
    let jx: i128;
    let jy: i128;
    if approach < 0 {
        proof {
            lemma_product_bound(
                approach as int,
                e + cfg.restitution_coefficient,
                4 * WIDE_MAX * WIDE_MAX,
                2 * ONE,
            );
        }
        let k = div_trunc(approach * (e + cfg.restitution_coefficient as i128), 2 * e);
        proof {
            lemma_div_toward_zero(
                (approach * (e + cfg.restitution_coefficient as i128)) as int,
                (2 * e) as int,
            );
            let kb = 4 * WIDE_MAX * WIDE_MAX;
            assert(abs(k as int) <= kb);
            lemma_product_bound(nx as int, k as int, WIDE_MAX as int, kb);
            lemma_product_bound(ny as int, k as int, WIDE_MAX as int, kb);
        }
        jx = div_trunc(nx * k, nn);
        jy = div_trunc(ny * k, nn);
        proof {
            lemma_div_toward_zero((nx * k) as int, nn as int);
            lemma_div_toward_zero((ny * k) as int, nn as int);
        }
    } else {
        jx = 0;
        jy = 0;
    }
    let noa = Vec2::saturating(oa.x as i128 + jx, oa.y as i128 + jy);
    let nob = Vec2::saturating(ob.x as i128 - jx, ob.y as i128 - jy);
    let acc_a = a.acceleration();
    let acc_b = b.acceleration();
    *a = Particle::from_parts(na, noa, acc_a);
    *b = Particle::from_parts(nb, nob, acc_b);
}

} // verus!
