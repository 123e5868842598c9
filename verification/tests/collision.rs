use verlet_sim::collision::resolve_particles;
use verlet_sim::config::Config;
use verlet_sim::particle::Particle;
use verlet_sim::vec2::{Vec2, COORD_MAX, ONE};

fn at(x: i64, y: i64, ox: i64, oy: i64) -> Particle {
    Particle::new(x, y, ox, oy)
}

fn gap_sq(a: &Particle, b: &Particle) -> i128 {
    let dx = (a.pos().x - b.pos().x) as i128;
    let dy = (a.pos().y - b.pos().y) as i128;
    dx * dx + dy * dy
}

#[test]
fn distant_pair_is_untouched() {
    let c = Config::standard();
    let mut a = at(0, 0, 5, 5);
    let mut b = at(100 * ONE, 0, -7, 9);
    resolve_particles(&mut a, &mut b, &c);
    assert_eq!(a.pos(), Vec2::new(0, 0));
    assert_eq!(a.old_pos(), Vec2::new(5, 5));
    assert_eq!(b.pos(), Vec2::new(100 * ONE, 0));
    assert_eq!(b.old_pos(), Vec2::new(-7, 9));
}

#[test]
fn tangent_pair_is_untouched() {
    let c = Config::standard();
    let mut a = at(0, 0, ONE, 0);
    let mut b = at(8 * ONE, 0, 7 * ONE, 0);
    resolve_particles(&mut a, &mut b, &c);
    assert_eq!(a.pos(), Vec2::new(0, 0));
    assert_eq!(a.old_pos(), Vec2::new(ONE, 0));
    assert_eq!(b.pos(), Vec2::new(8 * ONE, 0));
    assert_eq!(b.old_pos(), Vec2::new(7 * ONE, 0));
}

#[test]
fn pair_just_inside_contact_is_moved() {
    let c = Config::standard();
    let mut a = at(0, 0, 0, 0);
    let mut b = at(8 * ONE - 2, 0, 8 * ONE - 2, 0);
    resolve_particles(&mut a, &mut b, &c);
    assert_eq!(a.pos(), Vec2::new(-1, 0));
    assert_eq!(b.pos(), Vec2::new(8 * ONE - 1, 0));
}

#[test]
fn overlapping_pair_at_rest_is_pushed_apart() {
    let c = Config::standard();
    let mut a = at(300 * ONE, 300 * ONE, 300 * ONE, 300 * ONE);
    let mut b = at(306 * ONE, 300 * ONE, 306 * ONE, 300 * ONE);
    resolve_particles(&mut a, &mut b, &c);
    assert_eq!(a.pos(), Vec2::new(299 * ONE, 300 * ONE));
    assert_eq!(b.pos(), Vec2::new(307 * ONE, 300 * ONE));
    assert_eq!(a.old_pos(), Vec2::new(300 * ONE, 300 * ONE));
    assert_eq!(b.old_pos(), Vec2::new(306 * ONE, 300 * ONE));
    assert_eq!(gap_sq(&a, &b), (8 * ONE as i128) * (8 * ONE as i128));
}

#[test]
fn approaching_pair_rebounds() {
    let c = Config::standard();
    let mut a = at(300 * ONE, 300 * ONE, 297 * ONE, 300 * ONE);
    let mut b = at(306 * ONE, 300 * ONE, 309 * ONE, 300 * ONE);
    resolve_particles(&mut a, &mut b, &c);
    assert_eq!(a.pos(), Vec2::new(19595264, 19660800));
    assert_eq!(a.old_pos(), Vec2::new(19687014, 19660800));
    assert_eq!(b.pos(), Vec2::new(20119552, 19660800));
    assert_eq!(b.old_pos(), Vec2::new(20027802, 19660800));
    // they approached with 4 and part with 0.7 * 4, up to rounding
    let parting = (b.pos().x - b.old_pos().x) - (a.pos().x - a.old_pos().x);
    assert!((parting - 4 * 45875).abs() <= 2);
}

#[test]
fn receding_pair_gets_no_impulse() {
    let c = Config::standard();
    let mut a = at(300 * ONE, 300 * ONE, 301 * ONE, 300 * ONE);
    let mut b = at(306 * ONE, 300 * ONE, 305 * ONE, 300 * ONE);
    resolve_particles(&mut a, &mut b, &c);
    assert_eq!(a.pos(), Vec2::new(299 * ONE, 300 * ONE));
    assert_eq!(b.pos(), Vec2::new(307 * ONE, 300 * ONE));
    assert_eq!(a.old_pos(), Vec2::new(301 * ONE, 300 * ONE));
    assert_eq!(b.old_pos(), Vec2::new(305 * ONE, 300 * ONE));
}

#[test]
fn coincident_pair_is_parted_along_the_first_axis() {
    let c = Config::standard();
    let mut a = at(100, 100, 100, 100);
    let mut b = at(100, 100, 100, 100);
    resolve_particles(&mut a, &mut b, &c);
    assert_eq!(a.pos(), Vec2::new(100 + 4 * ONE, 100));
    assert_eq!(b.pos(), Vec2::new(100 - 4 * ONE, 100));
    assert_eq!(a.old_pos(), Vec2::new(100, 100));
    assert_eq!(b.old_pos(), Vec2::new(100, 100));
}

#[test]
fn coincident_pair_that_was_apart_rebounds() {
    let mut c = Config::standard();
    c.restitution_coefficient = ONE;
    let mut a = at(0, 0, -10 * ONE, 3);
    let mut b = at(0, 0, 10 * ONE, 5);
    resolve_particles(&mut a, &mut b, &c);
    assert_eq!(a.pos(), Vec2::new(4 * ONE, 0));
    assert_eq!(b.pos(), Vec2::new(-4 * ONE, 0));
    // relative velocity along the axis: (14) - (-14) = 28 > 0, no impulse
    assert_eq!(a.old_pos(), Vec2::new(-10 * ONE, 3));
    assert_eq!(b.old_pos(), Vec2::new(10 * ONE, 5));
    let mut e = at(0, 0, 10 * ONE, 0);
    let mut f = at(0, 0, -10 * ONE, 0);
    resolve_particles(&mut e, &mut f, &c);
    // relative velocity (-6) - (6) = -12 along the axis is turned round
    assert_eq!(e.old_pos(), Vec2::new(-2 * ONE, 0));
    assert_eq!(f.old_pos(), Vec2::new(2 * ONE, 0));
}

#[test]
fn diagonal_pair() {
    let c = Config::standard();
    let mut a = at(300 * ONE, 300 * ONE, 299 * ONE, 299 * ONE);
    let mut b = at(303 * ONE, 304 * ONE, 305 * ONE, 306 * ONE);
    resolve_particles(&mut a, &mut b, &c);
    assert_eq!(a.pos(), Vec2::new(19601818, 19582157));
    assert_eq!(a.old_pos(), Vec2::new(19635372, 19648741));
    assert_eq!(b.pos(), Vec2::new(19916390, 20001587));
    assert_eq!(b.old_pos(), Vec2::new(19948372, 20000539));
}

#[test]
fn acceleration_is_kept() {
    let c = Config::standard();
    let mut a = Particle::from_parts(Vec2::new(0, 0), Vec2::new(0, 0), Vec2::new(1, 2));
    let mut b = Particle::from_parts(Vec2::new(ONE, 0), Vec2::new(ONE, 0), Vec2::new(3, 4));
    resolve_particles(&mut a, &mut b, &c);
    assert_eq!(a.acceleration(), Vec2::new(1, 2));
    assert_eq!(b.acceleration(), Vec2::new(3, 4));
}

#[test]
fn resolved_pairs_end_tangent() {
    let c = Config::standard();
    let contact = (8 * ONE) as f64;
    let mut k: i64 = 7;
    for _ in 0..4000 {
        k = (k * 48271) % 2147483647;
        let dx = k % (8 * ONE) - 4 * ONE;
        k = (k * 48271) % 2147483647;
        let dy = k % (8 * ONE) - 4 * ONE;
        let mut a = at(1000 + dx, -2000 + dy, 1000, -2000);
        let mut b = at(1000, -2000, 1000 + dx, -2000 + dy);
        let before = gap_sq(&a, &b);
        resolve_particles(&mut a, &mut b, &c);
        let after = gap_sq(&a, &b);
        assert!(after >= before);
        let gap = (after as f64).sqrt();
        assert!(gap >= contact - 3.0);
        assert!(gap <= contact * (1.0 + 1.0 / 65536.0));
    }
}

#[test]
fn nearly_coincident_pair_ends_tangent() {
    let c = Config::standard();
    for (dx, dy) in [(1i64, 0i64), (0, -1), (1, 1), (-2, 1), (3, -3)] {
        let mut a = at(dx, dy, dx, dy);
        let mut b = at(0, 0, 0, 0);
        resolve_particles(&mut a, &mut b, &c);
        let gap = (gap_sq(&a, &b) as f64).sqrt();
        assert!(gap >= (8 * ONE) as f64 - 3.0);
        assert!(gap <= (8 * ONE) as f64 * (1.0 + 1.0 / 65536.0));
    }
}

#[test]
fn each_particle_moves_by_half_the_overlap() {
    let c = Config::standard();
    let mut a = at(0, 5 * ONE, 0, 5 * ONE);
    let mut b = at(0, 0, 0, 0);
    resolve_particles(&mut a, &mut b, &c);
    assert_eq!(a.pos(), Vec2::new(0, 5 * ONE + 3 * ONE / 2));
    assert_eq!(b.pos(), Vec2::new(0, -3 * ONE / 2));
}

#[test]
fn without_restitution_the_pair_stops_approaching() {
    let mut c = Config::standard();
    c.restitution_coefficient = 0;
    let mut a = at(0, 0, -3 * ONE, 0);
    let mut b = at(6 * ONE, 0, 9 * ONE, 0);
    resolve_particles(&mut a, &mut b, &c);
    let parting = (b.pos().x - b.old_pos().x) - (a.pos().x - a.old_pos().x);
    assert!(parting.abs() <= 2);
}

#[test]
fn with_full_restitution_the_approach_is_turned_round() {
    let mut c = Config::standard();
    c.restitution_coefficient = ONE;
    let mut a = at(0, 0, -3 * ONE, 0);
    let mut b = at(6 * ONE, 0, 9 * ONE, 0);
    resolve_particles(&mut a, &mut b, &c);
    // after the push the pair approaches with 4
    let parting = (b.pos().x - b.old_pos().x) - (a.pos().x - a.old_pos().x);
    assert!((parting - 4 * ONE).abs() <= 2);
}

#[test]
fn pair_at_the_edge_of_the_plane_saturates() {
    let c = Config::standard();
    let mut a = at(COORD_MAX, 0, COORD_MAX, 0);
    let mut b = at(COORD_MAX - ONE, 0, COORD_MAX - ONE, 0);
    resolve_particles(&mut a, &mut b, &c);
    assert_eq!(a.pos(), Vec2::new(COORD_MAX, 0));
    assert_eq!(b.pos(), Vec2::new(COORD_MAX - ONE - 7 * ONE / 2, 0));
    assert!(a.old_pos().in_range() && b.old_pos().in_range());
}

#[test]
fn fast_pair_at_the_edges_does_not_overflow() {
    let c = Config::standard();
    let mut a = at(COORD_MAX, COORD_MAX, -COORD_MAX, -COORD_MAX);
    let mut b = at(COORD_MAX - 1, COORD_MAX - 1, COORD_MAX, -COORD_MAX);
    resolve_particles(&mut a, &mut b, &c);
    assert!(a.pos().in_range() && a.old_pos().in_range());
    assert!(b.pos().in_range() && b.old_pos().in_range());
}
