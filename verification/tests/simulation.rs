use verlet_sim::config::Config;
use verlet_sim::particle::Particle;
use verlet_sim::simulation::VerletSimulation;
use verlet_sim::spawn::direction;
use verlet_sim::vec2::{Vec2, ONE};

fn standard() -> VerletSimulation {
    VerletSimulation::new(Config::standard()).unwrap()
}

fn quiet(sub_steps: u32) -> Config {
    let mut c = Config::standard();
    c.gravity = Vec2::new(0, 0);
    c.spawn_cadence = 1_000_000;
    c.sub_steps = sub_steps;
    c
}

fn state(sim: &VerletSimulation) -> Vec<(Vec2, Vec2, Vec2)> {
    sim.particles().iter().map(|p| (p.pos(), p.old_pos(), p.acceleration())).collect()
}

#[test]
fn new_simulation_is_empty() {
    let sim = standard();
    assert_eq!(sim.len(), 0);
    assert!(sim.particles().is_empty());
    assert_eq!(sim.particle_radius(), 4 * ONE);
    assert_eq!(sim.config().max_particles, 1000);
}

#[test]
fn new_simulation_needs_valid_parameters() {
    let mut c = Config::standard();
    c.container_radius = 3 * ONE;
    assert!(VerletSimulation::new(c).is_none());
    assert!(VerletSimulation::new(Config::standard()).is_some());
}

#[test]
fn first_frame_spawns_one_particle_that_falls() {
    let mut sim = standard();
    sim.update(1092, 1);
    assert_eq!(sim.len(), 1);
    let p = sim.particles()[0];
    assert_eq!(p.pos(), Vec2::new(20688888, 7751911));
    assert_eq!(p.old_pos(), Vec2::new(20517540, 7551245));
    assert_eq!(p.acceleration(), Vec2::new(0, 0));
    // downward and outward of the spawn point
    assert!(p.pos().y > 100 * ONE);
    assert!(p.pos().x > 300 * ONE);
}

#[test]
fn first_frame_agrees_with_floating_point() {
    let mut sim = standard();
    sim.update(1092, 1);
    let p = sim.particles()[0];
    let (mut x, mut y) = (300.0f64, 100.0f64);
    let (mut ox, mut oy) = (x + 4.0 * 4.0f64.cos(), y + 4.0 * 4.0f64.sin());
    let dt = 1.0 / 60.0 / 6.0;
    for _ in 0..6 {
        let (vx, vy) = (x - ox, y - oy);
        ox = x;
        oy = y;
        x += vx;
        y += vy + 750.0 * dt * dt;
    }
    assert!((p.pos().x as f64 / 65536.0 - x).abs() < 1e-3);
    assert!((p.pos().y as f64 / 65536.0 - y).abs() < 1e-3);
    assert!((p.old_pos().x as f64 / 65536.0 - ox).abs() < 1e-3);
    assert!((p.old_pos().y as f64 / 65536.0 - oy).abs() < 1e-3);
}

#[test]
fn second_frame() {
    let mut sim = standard();
    sim.update(1092, 1);
    sim.update(1092, 2);
    assert_eq!(
        state(&sim),
        vec![
            (Vec2::new(21716976, 8963866), Vec2::new(21545628, 8760926), Vec2::new(0, 0)),
            (Vec2::new(20564928, 7848607), Vec2::new(20414240, 7631825), Vec2::new(0, 0)),
        ]
    );
}

#[test]
fn frame_time_is_shared_out_among_the_sub_steps() {
    let mut c = Config::standard();
    c.sub_steps = 8;
    let mut sim = VerletSimulation::new(c).unwrap();
    sim.update(1000, 0);
    assert_eq!(
        state(&sim),
        vec![(Vec2::new(21031584, 8147144), Vec2::new(20860236, 7947328), Vec2::new(0, 0))]
    );
}

#[test]
fn sub_steps_differ_from_one_large_step() {
    let mut one = Config::standard();
    one.sub_steps = 1;
    let mut a = VerletSimulation::new(one).unwrap();
    let mut b = standard();
    a.update(1092, 0);
    b.update(1092, 0);
    assert_ne!(a.particles()[0].pos(), b.particles()[0].pos());
}

#[test]
fn spawn_follows_the_cadence() {
    let mut c = Config::standard();
    c.spawn_cadence = 3;
    let mut sim = VerletSimulation::new(c).unwrap();
    let mut counts = Vec::new();
    for frame in 1u32..=10 {
        let before = sim.len();
        sim.update(1092, frame);
        counts.push(sim.len());
        assert_eq!(sim.len() - before, if frame % 3 == 0 { 1 } else { 0 });
    }
    assert_eq!(counts, vec![0, 0, 1, 1, 1, 2, 2, 2, 3, 3]);
}

#[test]
fn particle_count_never_exceeds_the_maximum() {
    let mut c = Config::standard();
    c.max_particles = 5;
    let mut sim = VerletSimulation::new(c).unwrap();
    for frame in 0u32..20 {
        sim.update(1092, frame);
        assert!(sim.len() <= 5);
        let expected: usize = if frame < 4 { frame as usize + 1 } else { 5 };
        assert_eq!(sim.len(), expected);
    }
}

#[test]
fn particles_are_never_removed() {
    let mut sim = standard();
    let mut last = 0;
    for frame in 1u32..=60 {
        sim.update(1092, frame);
        assert!(sim.len() >= last);
        last = sim.len();
    }
    assert_eq!(last, 60);
}

#[test]
fn replay_gives_the_same_positions() {
    let mut a = standard();
    let mut b = standard();
    for frame in 1u32..=80 {
        a.update(1092, frame);
    }
    for frame in 1u32..=80 {
        b.update(1092, frame);
    }
    assert_eq!(state(&a), state(&b));
}

#[test]
fn hundred_and_twenty_frames() {
    let mut sim = standard();
    for frame in 1u32..=120 {
        sim.update(1092, frame);
    }
    assert_eq!(sim.len(), 120);
    let ps = sim.particles();
    assert_eq!(ps[0].pos(), Vec2::new(31372236, 25024282));
    assert_eq!(ps[0].old_pos(), Vec2::new(31313180, 25068822));
    assert_eq!(ps[60].pos(), Vec2::new(29085521, 30700045));
    assert_eq!(ps[60].old_pos(), Vec2::new(29050554, 30743563));
    assert_eq!(ps[119].pos(), Vec2::new(20564928, 7848607));
    assert_eq!(ps[119].old_pos(), Vec2::new(20414240, 7631825));
    let sum_x: i64 = ps.iter().map(|p| p.pos().x).sum();
    let sum_y: i64 = ps.iter().map(|p| p.pos().y).sum();
    assert_eq!((sum_x, sum_y), (2684946655, 3000400542));
}

#[test]
fn insert_stops_at_capacity() {
    let mut c = Config::standard();
    c.max_particles = 2;
    let mut sim = VerletSimulation::new(c).unwrap();
    assert!(sim.insert(Particle::new(1, 2, 3, 4)));
    assert!(sim.insert(Particle::new(5, 6, 7, 8)));
    assert!(!sim.insert(Particle::new(9, 9, 9, 9)));
    assert_eq!(sim.len(), 2);
    assert_eq!(sim.particles()[0].pos(), Vec2::new(1, 2));
    assert_eq!(sim.particles()[1].old_pos(), Vec2::new(7, 8));
}

#[test]
fn spawn_particle_uses_the_configured_speed() {
    let mut c = Config::standard();
    c.max_particles = 1;
    let mut sim = VerletSimulation::new(c).unwrap();
    assert!(sim.spawn_particle(300 * ONE, 100 * ONE, direction(40)));
    assert!(!sim.spawn_particle(0, 0, direction(41)));
    assert_eq!(sim.len(), 1);
    assert_eq!(sim.particles()[0].pos(), Vec2::new(19660800, 6553600));
    assert_eq!(sim.particles()[0].old_pos(), Vec2::new(19489452, 6355208));
}

#[test]
fn apply_constraints_contains_all_particles() {
    let mut sim = standard();
    let mut k: i64 = 3;
    for _ in 0..200 {
        k = (k * 48271) % 2147483647;
        let x = k % (1000 * ONE) - 200 * ONE;
        k = (k * 48271) % 2147483647;
        let y = k % (1000 * ONE) - 200 * ONE;
        sim.insert(Particle::new(x, y, x + k % 777, y - k % 555));
    }
    sim.apply_constraints();
    let reach = (246 * ONE) as i128;
    for p in sim.particles().iter() {
        let dx = (p.pos().x - 300 * ONE) as i128;
        let dy = (p.pos().y - 300 * ONE) as i128;
        assert!(dx * dx + dy * dy <= reach * reach);
    }
    let once = state(&sim);
    sim.apply_constraints();
    assert_eq!(state(&sim), once);
}

#[test]
fn solve_collisions_visits_pairs_in_order() {
    let mut sim = standard();
    sim.insert(Particle::new(300 * ONE, 300 * ONE, 300 * ONE, 300 * ONE));
    sim.insert(Particle::new(305 * ONE, 300 * ONE, 305 * ONE, 300 * ONE));
    sim.insert(Particle::new(310 * ONE, 300 * ONE, 310 * ONE, 300 * ONE));
    sim.solve_collisions();
    assert_eq!(
        state(&sim),
        vec![
            (Vec2::new(19562496, 19660800), Vec2::new(19660800, 19660800), Vec2::new(0, 0)),
            (Vec2::new(19939328, 19660800), Vec2::new(19988480, 19660800), Vec2::new(0, 0)),
            (Vec2::new(20463616, 19660800), Vec2::new(20316160, 19660800), Vec2::new(0, 0)),
        ]
    );
}

#[test]
fn solve_collisions_leaves_separate_particles() {
    let mut sim = standard();
    sim.insert(Particle::new(100 * ONE, 300 * ONE, 0, 0));
    sim.insert(Particle::new(108 * ONE, 300 * ONE, 1, 1));
    sim.insert(Particle::new(116 * ONE, 300 * ONE, 2, 2));
    let before = state(&sim);
    sim.solve_collisions();
    assert_eq!(state(&sim), before);
}

#[test]
fn solve_collisions_on_few_particles() {
    let mut sim = standard();
    sim.solve_collisions();
    assert_eq!(sim.len(), 0);
    sim.insert(Particle::new(1, 1, 2, 2));
    sim.solve_collisions();
    assert_eq!(state(&sim), vec![(Vec2::new(1, 1), Vec2::new(2, 2), Vec2::new(0, 0))]);
}

#[test]
fn single_particle_bounces_off_the_wall_with_damped_speed() {
    let mut sim = VerletSimulation::new(quiet(1)).unwrap();
    sim.insert(Particle::new(540 * ONE, 300 * ONE, 537 * ONE, 300 * ONE));
    let mut speeds = Vec::new();
    for frame in 1u32..=7 {
        sim.update(1092, frame);
        let p = sim.particles()[0];
        assert_eq!(p.pos().y, 300 * ONE);
        speeds.push(p.pos().x - p.old_pos().x);
    }
    let back = -(3 * 65470);
    assert_eq!(speeds, vec![3 * ONE, 3 * ONE, 3 * ONE, back, back, back, back]);
    assert_eq!(sim.particles()[0].pos(), Vec2::new(34997016, 19660800));
    assert_eq!(sim.len(), 1);
}

#[test]
fn bouncing_particle_never_gains_speed() {
    let mut sim = VerletSimulation::new(quiet(4)).unwrap();
    sim.insert(Particle::new(300 * ONE, 300 * ONE, 300 * ONE - 40000, 300 * ONE + 90000));
    let mut last = i128::MAX;
    for frame in 1u32..=4000 {
        sim.update(1092, frame);
        let p = sim.particles()[0];
        let vx = (p.pos().x - p.old_pos().x) as i128;
        let vy = (p.pos().y - p.old_pos().y) as i128;
        let speed_sq = vx * vx + vy * vy;
        assert!(speed_sq <= last);
        last = speed_sq;
    }
    assert!(last < 40000 * 40000 + 90000 * 90000);
}

#[test]
fn particles_settle_inside_the_container() {
    let mut sim = standard();
    for frame in 1u32..=150 {
        sim.update(1092, frame);
    }
    sim.apply_constraints();
    let reach = (246 * ONE) as i128;
    for p in sim.particles().iter() {
        let dx = (p.pos().x - 300 * ONE) as i128;
        let dy = (p.pos().y - 300 * ONE) as i128;
        assert!(dx * dx + dy * dy <= reach * reach);
    }
}

#[test]
fn update_without_time_moves_by_velocity_only() {
    let mut sim = VerletSimulation::new(quiet(3)).unwrap();
    sim.insert(Particle::new(300 * ONE, 300 * ONE, 300 * ONE - 5, 300 * ONE + 7));
    sim.update(0, 1);
    assert_eq!(sim.particles()[0].pos(), Vec2::new(300 * ONE + 15, 300 * ONE - 21));
}

#[test]
fn frame_zero_spawns() {
    let mut sim = VerletSimulation::new(quiet(1)).unwrap();
    sim.update(1092, 0);
    assert_eq!(sim.len(), 1);
    sim.update(1092, 1);
    assert_eq!(sim.len(), 1);
    sim.update(1092, 1_000_000);
    assert_eq!(sim.len(), 2);
}
