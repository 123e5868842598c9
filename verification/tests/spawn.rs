use verlet_sim::config::Config;
use verlet_sim::spawn::{
    direction, make_spawned, should_spawn, spawn_angle, spawn_direction, SPRAY_PERIOD,
};
use verlet_sim::vec2::{Vec2, COORD_MAX, ONE};

#[test]
fn spawn_angle_swings_between_forty_and_sixty() {
    let indices = [0usize, 1, 20, 21, 39, 40, 41, 60, 61, 79, 80];
    let expected = [40u32, 41, 60, 59, 41, 40, 41, 60, 59, 41, 40];
    for (i, e) in indices.iter().zip(expected.iter()) {
        assert_eq!(spawn_angle(*i), *e);
    }
}

#[test]
fn spawn_angle_is_periodic() {
    assert_eq!(SPRAY_PERIOD, 40);
    for i in 0usize..200 {
        assert_eq!(spawn_angle(i), spawn_angle(i + SPRAY_PERIOD));
        assert!(40 <= spawn_angle(i) && spawn_angle(i) <= 60);
    }
    assert_eq!(spawn_angle(usize::MAX), spawn_angle(usize::MAX % 40));
}

#[test]
fn direction_is_cosine_and_sine() {
    for tenths in 40u32..=60 {
        let d = direction(tenths);
        let angle = tenths as f64 / 10.0;
        assert_eq!(d.x, (angle.cos() * 65536.0).round() as i64);
        assert_eq!(d.y, (angle.sin() * 65536.0).round() as i64);
    }
}

#[test]
fn direction_table_entries() {
    assert_eq!(direction(40), Vec2::new(-42837, -49598));
    assert_eq!(direction(47), Vec2::new(-812, -65531));
    assert_eq!(direction(53), Vec2::new(36331, -54543));
    assert_eq!(direction(60), Vec2::new(62926, -18312));
}

#[test]
fn direction_clamps_the_angle() {
    assert_eq!(direction(0), direction(40));
    assert_eq!(direction(39), direction(40));
    assert_eq!(direction(61), direction(60));
    assert_eq!(direction(u32::MAX), direction(60));
}

#[test]
fn spawn_direction_follows_the_angle() {
    for i in 0usize..100 {
        assert_eq!(spawn_direction(i), direction(spawn_angle(i)));
    }
    assert_eq!(spawn_direction(25), Vec2::new(46443, -46238));
}

#[test]
fn should_spawn_on_multiples_of_the_cadence() {
    let mut c = Config::standard();
    c.spawn_cadence = 3;
    assert!(should_spawn(0, 0, &c));
    assert!(!should_spawn(1, 0, &c));
    assert!(!should_spawn(2, 0, &c));
    assert!(should_spawn(3, 0, &c));
    assert!(should_spawn(3000, 999, &c));
    assert!(!should_spawn(3001, 999, &c));
}

#[test]
fn should_spawn_never_at_capacity() {
    let c = Config::standard();
    assert!(should_spawn(7, 999, &c));
    assert!(!should_spawn(7, 1000, &c));
    assert!(!should_spawn(7, 1001, &c));
    assert!(!should_spawn(0, usize::MAX, &c));
}

#[test]
fn make_spawned_puts_the_old_position_ahead() {
    let p = make_spawned(300 * ONE, 100 * ONE, direction(40), 4 * ONE);
    assert_eq!(p.pos(), Vec2::new(19660800, 6553600));
    assert_eq!(p.old_pos(), Vec2::new(19489452, 6355208));
    assert_eq!(p.acceleration(), Vec2::new(0, 0));
    let q = make_spawned(300 * ONE, 100 * ONE, spawn_direction(25), 4 * ONE);
    assert_eq!(q.old_pos(), Vec2::new(19846572, 6368648));
}

#[test]
fn make_spawned_without_speed_is_at_rest() {
    let p = make_spawned(5, -6, Vec2::new(ONE, ONE), 0);
    assert_eq!(p.pos(), Vec2::new(5, -6));
    assert_eq!(p.old_pos(), Vec2::new(5, -6));
}

#[test]
fn make_spawned_saturates() {
    let p = make_spawned(i64::MAX, i64::MIN, Vec2::new(i64::MAX, i64::MIN), COORD_MAX);
    assert_eq!(p.pos(), Vec2::new(COORD_MAX, -COORD_MAX));
    assert_eq!(p.old_pos(), Vec2::new(COORD_MAX, -COORD_MAX));
}

#[test]
fn spawned_particle_moves_down() {
    for i in 0usize..40 {
        let p = make_spawned(0, 0, spawn_direction(i), 4 * ONE);
        assert!(p.pos().y - p.old_pos().y > 0);
    }
}
