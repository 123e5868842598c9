//! The simulation: a growing set of particles in a circular container and
//! the step that advances them by one frame.

use crate::boundary::{
    constrain, constrain_particle, lemma_constrain_contains, lemma_constrain_keeps_storable, outside,
};
use crate::collision::{
    all_wf, lemma_resolve_rows_keeps_storable, lemma_resolve_rows_len, resolve_all, resolve_at, resolve_particles, resolve_row, resolve_rows,
};
use crate::config::Config;
use crate::particle::{lemma_motion_keeps_storable, Particle, ParticleState};
use crate::spawn::{
    make_spawned, should_spawn, spawn_angle_of, spawn_direction, spawn_due, spawned, unit_vector,
};
use crate::vec2::{Vec2, V2};
use vstd::prelude::*;

verus! {

/// The states of a sequence of particles.
pub open spec fn views(ps: Seq<Particle>) -> Seq<ParticleState> {
    ps.map_values(|p: Particle| p@)
}

/// Every particle after `g` was added to its accumulated acceleration.
pub open spec fn accelerate_all(ps: Seq<ParticleState>, g: V2) -> Seq<ParticleState> {
    ps.map_values(|p: ParticleState| p.accelerated(g))
}

/// Every particle after the wall acted on it.
pub open spec fn constrain_all(ps: Seq<ParticleState>, cfg: Config) -> Seq<ParticleState> {
    ps.map_values(|p: ParticleState| constrain(p, cfg))
}

/// Every particle after one integration step of duration `dt`.
pub open spec fn integrate_all(ps: Seq<ParticleState>, dt: int) -> Seq<ParticleState> {
    ps.map_values(|p: ParticleState| p.integrated(dt))
}

/// One sub-step: gravity is accumulated, the wall acts, the collisions are
/// resolved, and the particles move.
pub open spec fn sub_step(ps: Seq<ParticleState>, cfg: Config, dt: int) -> Seq<ParticleState> {
    integrate_all(
        resolve_all(constrain_all(accelerate_all(ps, cfg.gravity@), cfg), cfg),
        dt,
    )
}

/// `count` sub-steps, one after the other.
pub open spec fn sub_steps(ps: Seq<ParticleState>, cfg: Config, dt: int, count: int) -> Seq<
    ParticleState,
>
    decreases count,
{
    if count <= 0 {
        ps
    } else {
        sub_steps(sub_step(ps, cfg, dt), cfg, dt, count - 1)
    }
}

/// The mathematical state of a simulation.
pub struct SimState {
    pub particles: Seq<ParticleState>,
    pub config: Config,
}

impl SimState {
    /// The parameters are well formed, the particles are storable, and
    /// there are no more of them than the parameters allow.
    pub open spec fn wf(self) -> bool {
        &&& self.config.wf()
        &&& self.particles.len() <= self.config.max_particles
        &&& all_wf(self.particles)
    }

    /// The state with `p` appended, or the same state if it is full.
    pub open spec fn with_particle(self, p: ParticleState) -> SimState {
        if self.particles.len() < self.config.max_particles {
            SimState { particles: self.particles.push(p), ..self }
        } else {
            self
        }
    }

    /// The state after the spawn check of the given frame: where a particle
    /// is due, one is appended at the spawn point, in the direction that
    /// belongs to the number of particles so far.
    pub open spec fn spawn_checked(self, frame: int) -> SimState {
        if spawn_due(frame, self.particles.len() as int, self.config) {
            self.with_particle(
                spawned(
                    self.config.spawn_point@,
                    unit_vector(spawn_angle_of(self.particles.len() as int)),
                    self.config.spawn_speed as int,
                ),
            )
        } else {
            self
        }
    }

    /// The state one frame of duration `dt` later: the spawn check, then
    /// the configured number of sub-steps, each of an equal share of `dt`.
    pub open spec fn advanced(self, dt: int, frame: int) -> SimState {
        let s = self.spawn_checked(frame);
        SimState {
            particles: sub_steps(
                s.particles,
                s.config,
                dt / (s.config.sub_steps as int),
                s.config.sub_steps as int,
            ),
            ..s
        }
    }
}

/// The state after the frames of `calls`, each a duration and a frame
/// index, were advanced one after the other.
pub open spec fn replayed(s: SimState, calls: Seq<(int, int)>) -> SimState
    decreases calls.len(),
{
    if calls.len() == 0 {
        s
    } else {
        replayed(s, calls.drop_last()).advanced(calls.last().0, calls.last().1)
    }
}

/// No particle is outside the allowed disc.
pub open spec fn all_contained(ps: Seq<ParticleState>, cfg: Config) -> bool {
    forall|k: int| 0 <= k < ps.len() ==> !outside(#[trigger] ps[k], cfg)
}

/// Containment: after the wall acted on them, all particles are on or
/// inside the allowed disc.
pub proof fn lemma_constrain_all_contains(ps: Seq<ParticleState>, cfg: Config)
    requires
        cfg.wf(),
    ensures
        all_contained(constrain_all(ps, cfg), cfg),
        constrain_all(ps, cfg).len() == ps.len(),
{
    assert forall|k: int| 0 <= k < ps.len() implies !outside(
        #[trigger] constrain_all(ps, cfg)[k],
        cfg,
    ) by {
        lemma_constrain_contains(ps[k], cfg);
    }
}

/// A sub-step neither adds nor removes a particle.
pub proof fn lemma_sub_steps_len(ps: Seq<ParticleState>, cfg: Config, dt: int, count: int)
    ensures
        sub_steps(ps, cfg, dt, count).len() == ps.len(),
    decreases count,
{
    if count > 0 {
        let moved = constrain_all(accelerate_all(ps, cfg.gravity@), cfg);
        lemma_resolve_rows_len(moved, 0, moved.len() as int, cfg);
        lemma_sub_steps_len(sub_step(ps, cfg, dt), cfg, dt, count - 1);
    }
}

/// Spawn cadence: a frame adds exactly one particle if its index is a
/// multiple of the cadence and the simulation is not full, and none
/// otherwise; the parameters stay as they are.
pub proof fn lemma_spawn_cadence(s: SimState, dt: int, frame: int)
    ensures
        s.advanced(dt, frame).config == s.config,
        spawn_due(frame, s.particles.len() as int, s.config) ==> s.advanced(
            dt,
            frame,
        ).particles.len() == s.particles.len() + 1,
        !spawn_due(frame, s.particles.len() as int, s.config) ==> s.advanced(
            dt,
            frame,
        ).particles.len() == s.particles.len(),
{
    let t = s.spawn_checked(frame);
    lemma_sub_steps_len(
        t.particles,
        t.config,
        dt / (t.config.sub_steps as int),
        t.config.sub_steps as int,
    );
}

/// A sub-step keeps every coordinate storable.
pub proof fn lemma_sub_steps_keep_storable(
    ps: Seq<ParticleState>,
    cfg: Config,
    dt: int,
    count: int,
)
    requires
        cfg.wf(),
        all_wf(ps),
    ensures
        all_wf(sub_steps(ps, cfg, dt, count)),
    decreases count,
{
    if count > 0 {
        let pushed = accelerate_all(ps, cfg.gravity@);
        let held = constrain_all(pushed, cfg);
        assert forall|k: int| 0 <= k < held.len() implies (#[trigger] held[k]).wf() by {
            lemma_motion_keeps_storable(ps[k], cfg.gravity@, dt);
            lemma_constrain_keeps_storable(pushed[k], cfg);
        }
        lemma_resolve_rows_len(held, 0, held.len() as int, cfg);
        lemma_resolve_rows_keeps_storable(held, 0, held.len() as int, cfg);
        let parted = resolve_all(held, cfg);
        assert forall|k: int| 0 <= k < parted.len() implies (#[trigger] integrate_all(
            parted,
            dt,
        )[k]).wf() by {
            lemma_motion_keeps_storable(parted[k], cfg.gravity@, dt);
        }
        lemma_sub_steps_keep_storable(sub_step(ps, cfg, dt), cfg, dt, count - 1);
    }
}

/// A frame leads from a well-formed state to a well-formed state: the
/// coordinates stay storable and the particles are no more than allowed.
pub proof fn lemma_advanced_wf(s: SimState, dt: int, frame: int)
    requires
        s.wf(),
    ensures
        s.advanced(dt, frame).wf(),
{
    let t = s.spawn_checked(frame);
    assert(all_wf(t.particles));
    lemma_spawn_cadence(s, dt, frame);
    lemma_sub_steps_keep_storable(
        t.particles,
        t.config,
        dt / (t.config.sub_steps as int),
        t.config.sub_steps as int,
    );
}

/// Capacity: after any sequence of frames a simulation is well formed, so
/// it holds no more particles than its parameters allow, and it has lost
/// none; the parameters stay as they are.
pub proof fn lemma_capacity_kept(s: SimState, calls: Seq<(int, int)>)
    requires
        s.wf(),
    ensures
        replayed(s, calls).wf(),
        replayed(s, calls).particles.len() <= s.config.max_particles,
        replayed(s, calls).config == s.config,
        s.particles.len() <= replayed(s, calls).particles.len(),
    decreases calls.len(),
{
    if calls.len() > 0 {
        lemma_capacity_kept(s, calls.drop_last());
        lemma_spawn_cadence(replayed(s, calls.drop_last()), calls.last().0, calls.last().1);
        lemma_advanced_wf(replayed(s, calls.drop_last()), calls.last().0, calls.last().1);
    }
}

/// Determinism: two simulations in the same state that are advanced by the
/// same frames end in the same state.
pub proof fn lemma_replay_deterministic(a: SimState, b: SimState, calls: Seq<(int, int)>)
    requires
        a == b,
    ensures
        replayed(a, calls) == replayed(b, calls),
{
}

/// Adds `g` to the accumulated acceleration of every particle.
fn accelerate_particles(ps: &mut Vec<Particle>, g: Vec2)
    ensures
        views(final(ps)@) == accelerate_all(views(old(ps)@), g@),
        all_wf(views(final(ps)@)),
        final(ps).len() == old(ps).len(),
{
    let n = ps.len();
    let mut i: usize = 0;
    while i < n
        invariant
            i <= n,
            ps.len() == n,
            old(ps).len() == n,
            forall|k: int| 0 <= k < i ==> (#[trigger] ps[k])@ == old(ps)[k]@.accelerated(g@),
            forall|k: int| 0 <= k < i ==> (#[trigger] ps[k])@.wf(),
            forall|k: int| i <= k < n ==> #[trigger] ps[k] == old(ps)[k],
        decreases n - i,
    {
        let mut p = ps[i];
        p.accelerate(g);
        ps[i] = p;
        i += 1;
    }
    assert(views(ps@) =~= accelerate_all(views(old(ps)@), g@));
}

/// Lets the wall act on every particle.
fn constrain_particles(ps: &mut Vec<Particle>, cfg: &Config)
    requires
        cfg.wf(),
    ensures
        views(final(ps)@) == constrain_all(views(old(ps)@), *cfg),
        all_wf(views(final(ps)@)),
        final(ps).len() == old(ps).len(),
{
    let n = ps.len();
    let mut i: usize = 0;
    while i < n
        invariant
            i <= n,
            ps.len() == n,
            old(ps).len() == n,
            cfg.wf(),
            forall|k: int| 0 <= k < i ==> (#[trigger] ps[k])@ == constrain(old(ps)[k]@, *cfg),
            forall|k: int| 0 <= k < i ==> (#[trigger] ps[k])@.wf(),
            forall|k: int| i <= k < n ==> #[trigger] ps[k] == old(ps)[k],
        decreases n - i,
    {
        let mut p = ps[i];
        constrain_particle(&mut p, cfg);
        ps[i] = p;
        i += 1;
    }
    assert(views(ps@) =~= constrain_all(views(old(ps)@), *cfg));
}

/// Moves every particle by one integration step of duration `dt`.
fn integrate_particles(ps: &mut Vec<Particle>, dt: u32)
    ensures
        views(final(ps)@) == integrate_all(views(old(ps)@), dt as int),
        all_wf(views(final(ps)@)),
        final(ps).len() == old(ps).len(),
{
    let n = ps.len();
    let mut i: usize = 0;
    while i < n
        invariant
            i <= n,
            ps.len() == n,
            old(ps).len() == n,
            forall|k: int| 0 <= k < i ==> (#[trigger] ps[k])@ == old(ps)[k]@.integrated(dt as int),
            forall|k: int| 0 <= k < i ==> (#[trigger] ps[k])@.wf(),
            forall|k: int| i <= k < n ==> #[trigger] ps[k] == old(ps)[k],
        decreases n - i,
    {
        let mut p = ps[i];
        p.update(dt);
        ps[i] = p;
        i += 1;
    }
    assert(views(ps@) =~= integrate_all(views(old(ps)@), dt as int));
}

/// Resolves the collisions of all pairs `(i, j)` with `i < j`, in
/// lexicographic order and in place, so that each pair meets the outcome of
/// the pairs before it.
fn resolve_particle_pairs(ps: &mut Vec<Particle>, cfg: &Config)
    requires
        cfg.wf(),
        all_wf(views(old(ps)@)),
    ensures
        views(final(ps)@) == resolve_all(views(old(ps)@), *cfg),
        all_wf(views(final(ps)@)),
        final(ps).len() == old(ps).len(),
{
    let n = ps.len();
    let ghost total = resolve_all(views(ps@), *cfg);
    let mut i: usize = 0;
    while i < n
        invariant
            i <= n,
            ps.len() == n,
            cfg.wf(),
            all_wf(views(ps@)),
            resolve_rows(views(ps@), i as int, n as int, *cfg) == total,
        decreases n - i,
    {
        let ghost row_total = resolve_row(views(ps@), i as int, i + 1, n as int, *cfg);
        let mut j: usize = i + 1;
        while j < n
            invariant
                i < j <= n,
                ps.len() == n,
                cfg.wf(),
                all_wf(views(ps@)),
                resolve_row(views(ps@), i as int, j as int, n as int, *cfg) == row_total,
            decreases n - j,
        {
            let ghost before = views(ps@);
            let mut a = ps[i];
            let mut b = ps[j];
            assert(a@ == before[i as int] && b@ == before[j as int]);
            resolve_particles(&mut a, &mut b, cfg);
            ps[i] = a;
            ps[j] = b;
            assert(views(ps@) =~= resolve_at(before, i as int, j as int, *cfg));
            j += 1;
        }
        i += 1;
    }
}

/// A set of particles in a circular container.
pub struct VerletSimulation {
    particles: Vec<Particle>,
    config: Config,
}

impl View for VerletSimulation {
    type V = SimState;

    closed spec fn view(&self) -> SimState {
        SimState { particles: views(self.particles@), config: self.config }
    }
}

impl VerletSimulation {
    #[verifier::type_invariant]
    spec fn sound(self) -> bool {
        self@.wf()
    }

    /// An empty simulation with the given parameters, or nothing if they
    /// are not well formed.
    pub fn new(config: Config) -> (sim: Option<VerletSimulation>)
        ensures
            sim.is_some() == config.wf(),
            sim matches Some(s) ==> s@ == (SimState { particles: Seq::empty(), config }) && s@.wf(),
    {
        if config.is_valid() {
            let s = VerletSimulation { particles: Vec::new(), config };
            assert(s@.particles =~= Seq::empty());
            Some(s)
        } else {
            None
        }
    }

    /// Appends `p` unless the simulation is full, and says whether it did.
    pub fn insert(&mut self, p: Particle) -> (added: bool)
        ensures
            added == (old(self)@.particles.len() < old(self)@.config.max_particles),
            final(self)@ == old(self)@.with_particle(p@),
            final(self)@.wf(),
    {
        proof {
            use_type_invariant(&*self);
        }
        let _ = p.pos();
        if self.particles.len() < self.config.max_particles {
            let mut ps: Vec<Particle> = Vec::new();
            core::mem::swap(&mut self.particles, &mut ps);
            ps.push(p);
            assert(views(ps@) =~= old(self)@.particles.push(p@));
            core::mem::swap(&mut self.particles, &mut ps);
            true
        } else {
            false
        }
    }

    /// Spawns a particle at `(x, y)` in direction `dir` unless the
    /// simulation is full, and says whether it did.
    pub fn spawn_particle(&mut self, x: i64, y: i64, dir: Vec2) -> (added: bool)
        ensures
            added == (old(self)@.particles.len() < old(self)@.config.max_particles),
            final(self)@ == old(self)@.with_particle(
                spawned(V2 { x: x as int, y: y as int }, dir@, old(self)@.config.spawn_speed as int),
            ),
            final(self)@.wf(),
    {
        proof {
            use_type_invariant(&*self);
        }
        let p = make_spawned(x, y, dir, self.config.spawn_speed);
        self.insert(p)
    }

    /// Lets the wall act on every particle.
    pub fn apply_constraints(&mut self)
        ensures
            final(self)@ == (SimState {
                particles: constrain_all(old(self)@.particles, old(self)@.config),
                ..old(self)@
            }),
            all_contained(final(self)@.particles, final(self)@.config),
            final(self)@.wf(),
    {
        proof {
            use_type_invariant(&*self);
            lemma_constrain_all_contains(self@.particles, self.config);
        }
        let cfg = self.config;
        let mut ps: Vec<Particle> = Vec::new();
        core::mem::swap(&mut self.particles, &mut ps);
        constrain_particles(&mut ps, &cfg);
        core::mem::swap(&mut self.particles, &mut ps);
    }

    /// Resolves the collisions of all pairs of particles, once.
    pub fn solve_collisions(&mut self)
        ensures
            final(self)@ == (SimState {
                particles: resolve_all(old(self)@.particles, old(self)@.config),
                ..old(self)@
            }),
            final(self)@.wf(),
    {
        proof {
            use_type_invariant(&*self);
        }
        let cfg = self.config;
        let mut ps: Vec<Particle> = Vec::new();
        core::mem::swap(&mut self.particles, &mut ps);
        resolve_particle_pairs(&mut ps, &cfg);
        core::mem::swap(&mut self.particles, &mut ps);
    }

    /// Advances the simulation by one frame of duration `dt`, in fixed-point
    /// seconds.
    pub fn update(&mut self, dt: u32, frame: u32)
        ensures
            final(self)@ == old(self)@.advanced(dt as int, frame as int),
            final(self)@.wf(),
            final(self)@.config == old(self)@.config,
            final(self)@.particles.len() == old(self)@.particles.len() + (if spawn_due(
                frame as int,
                old(self)@.particles.len() as int,
                old(self)@.config,
            ) {
                1int
            } else {
                0int
            }),
    {
        proof {
            use_type_invariant(&*self);
            lemma_spawn_cadence(self@, dt as int, frame as int);
        }
        let cfg = self.config;
        let count = self.particles.len();
        if should_spawn(frame, count, &cfg) {
            let dir = spawn_direction(count);
            self.spawn_particle(cfg.spawn_point.x, cfg.spawn_point.y, dir);
        }
        let sub_dt: u32 = dt / cfg.sub_steps;
        let ghost start = self@.particles;
        let mut ps: Vec<Particle> = Vec::new();
        core::mem::swap(&mut self.particles, &mut ps);
        let mut k: u32 = 0;
        while k < cfg.sub_steps
            invariant
                k <= cfg.sub_steps,
                cfg.wf(),
                ps.len() == start.len(),
                all_wf(views(ps@)),
                sub_steps(views(ps@), cfg, sub_dt as int, cfg.sub_steps - k) == sub_steps(
                    start,
                    cfg,
                    sub_dt as int,
                    cfg.sub_steps as int,
                ),
            decreases cfg.sub_steps - k,
        {
            accelerate_particles(&mut ps, cfg.gravity);
            constrain_particles(&mut ps, &cfg);
            resolve_particle_pairs(&mut ps, &cfg);
            integrate_particles(&mut ps, sub_dt);
            k += 1;
        }
        core::mem::swap(&mut self.particles, &mut ps);
    }

    /// The number of particles.
    pub fn len(&self) -> (n: usize)
        ensures
            n == self@.particles.len(),
            n <= self@.config.max_particles,
    {
        proof {
            use_type_invariant(self);
        }
        self.particles.len()
    }

    /// The parameters that the simulation was made with.
    pub fn config(&self) -> (c: Config)
        ensures
            c == self@.config,
            c.wf(),
    {
        proof {
            use_type_invariant(self);
        }
        self.config
    }

    /// The particles, in the order in which they were added.
    pub fn particles(&self) -> (ps: &Vec<Particle>)
        ensures
            views(ps@) == self@.particles,
            self@.wf(),
    {
        proof {
            use_type_invariant(self);
        }
        &self.particles
    }

    /// The radius shared by all particles.
    pub fn particle_radius(&self) -> (r: i64)
        ensures
            r == self@.config.particle_radius,
    {
        self.config.particle_radius
    }
}

} // verus!
