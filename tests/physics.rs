use quadtree_physics::body::{clamp_i128, div_trunc_i128, BodyError, Physics, LIMIT, MAX_MASS};
use quadtree_physics::collision::{isqrt, resolve_pair, resolve_pairs, solve};
use quadtree_physics::geometry::{Point, Rect};
use quadtree_physics::quadtree::rebuild;
use quadtree_physics::simulation::{candidate_pairs, search_box, snapshot, step, Config};

fn body(x: i64, y: i64, vx: i64, vy: i64, mass: i64, radius: i64) -> Physics {
    Physics::new(Point::new(x, y), Point::new(vx, vy), mass, radius).unwrap()
}

fn config() -> Config {
    Config {
        x_extent: 400,
        y_extent: 400,
        capacity: 4,
        solver_iterations: 16,
        restitution_permille: 500,
        wall_permille: 700,
    }
}

fn depth(a: &Physics, b: &Physics) -> i64 {
    let dx = (a.position.x - b.position.x) as u64;
    let dy = (a.position.y - b.position.y) as u64;
    let d2 = dx.wrapping_mul(dx).wrapping_add(dy.wrapping_mul(dy));
    a.collider_radius + b.collider_radius - isqrt(d2) as i64
}

#[test]
fn body_rejects_non_positive_mass() {
    assert_eq!(Physics::new(Point::new(0, 0), Point::new(0, 0), 0, 1), Err(BodyError::NonPositiveMass));
    assert_eq!(Physics::new(Point::new(0, 0), Point::new(0, 0), -3, 1), Err(BodyError::NonPositiveMass));
}

#[test]
fn body_rejects_out_of_range() {
    let p = Point::new(0, 0);
    assert_eq!(Physics::new(p, p, MAX_MASS + 1, 1), Err(BodyError::OutOfRange));
    assert_eq!(Physics::new(p, p, 1, -1), Err(BodyError::OutOfRange));
    assert_eq!(Physics::new(Point::new(LIMIT + 1, 0), p, 1, 1), Err(BodyError::OutOfRange));
    assert_eq!(Physics::new(p, Point::new(0, -LIMIT - 1), 1, 1), Err(BodyError::OutOfRange));
    let b = Physics::new(p, Point::new(3, 4), 2, 5).unwrap();
    assert_eq!(b.acceleration, Point::new(0, 0));
    assert_eq!(b.velocity, Point::new(3, 4));
}

#[test]
fn set_acceleration_checks_range() {
    let mut b = body(0, 0, 0, 0, 1, 1);
    assert_eq!(b.set_acceleration(Point::new(LIMIT + 1, 0)), Err(BodyError::OutOfRange));
    assert_eq!(b.acceleration, Point::new(0, 0));
    assert_eq!(b.set_acceleration(Point::new(2, -3)), Ok(()));
    assert_eq!(b.acceleration, Point::new(2, -3));
}

#[test]
fn integrate_is_semi_implicit_euler() {
    let mut b = body(10, -5, 3, 1, 1, 1);
    b.set_acceleration(Point::new(2, -1)).unwrap();
    b.integrate(4);
    assert_eq!(b.velocity, Point::new(11, -3));
    assert_eq!(b.position, Point::new(54, -17));
}

#[test]
fn integrate_saturates() {
    let mut b = body(LIMIT - 1, 0, LIMIT, 0, 1, 1);
    b.integrate(2);
    assert_eq!(b.position.x, LIMIT);
}

#[test]
fn boundary_reflection_after_one_step() {
    let mut bodies = vec![body(401, 0, 50, 0, 1, 1)];
    step(&mut bodies, &config(), 1);
    assert!(bodies[0].velocity.x < 0);
    assert!(bodies[0].position.x.abs() < 401);
    assert_eq!(bodies[0].velocity.x, -35);
    assert_eq!(bodies[0].position.x, 399);
}

#[test]
fn boundary_left_wall_and_inside_untouched() {
    let mut b = body(-450, 10, -20, 7, 1, 1);
    b.apply_boundary(400, 400, 1000);
    assert_eq!(b.position, Point::new(-399, 10));
    assert_eq!(b.velocity, Point::new(20, 7));
}

#[test]
fn resolve_pair_exact_values() {
    let mut a = body(0, 0, 10, 0, 1, 10);
    let mut b = body(15, 0, -10, 0, 1, 10);
    resolve_pair(&mut a, &mut b, 500);
    assert_eq!(a.velocity, Point::new(-5, 0));
    assert_eq!(b.velocity, Point::new(5, 0));
    assert_eq!(a.position, Point::new(-3, 0));
    assert_eq!(b.position, Point::new(18, 0));
}

#[test]
fn equal_masses_head_on_swap_velocities() {
    let mut a = body(0, 0, 300, 0, 5, 100);
    let mut b = body(150, 0, -200, 0, 5, 100);
    let before = a.mass * a.velocity.x + b.mass * b.velocity.x;
    resolve_pair(&mut a, &mut b, 1000);
    assert_eq!(a.velocity, Point::new(-200, 0));
    assert_eq!(b.velocity, Point::new(300, 0));
    assert_eq!(a.mass * a.velocity.x + b.mass * b.velocity.x, before);
}

#[test]
fn separating_or_apart_pairs_are_skipped() {
    let a0 = body(0, 0, -10, 0, 1, 10);
    let b0 = body(15, 0, 10, 0, 1, 10);
    let (mut a, mut b) = (a0, b0);
    resolve_pair(&mut a, &mut b, 500);
    assert_eq!((a, b), (a0, b0));
    let c0 = body(0, 0, 10, 0, 1, 10);
    let d0 = body(100, 0, -10, 0, 1, 10);
    let (mut c, mut d) = (c0, d0);
    resolve_pair(&mut c, &mut d, 500);
    assert_eq!((c, d), (c0, d0));
    let (mut e, mut f) = (c0, c0);
    resolve_pair(&mut e, &mut f, 500);
    assert_eq!((e, f), (c0, c0));
}

#[test]
fn bodies_just_beyond_touching_are_skipped() {
    let a0 = body(0, 0, 1, 0, 1, 1);
    let b0 = body(2, 1, -1, 0, 1, 1);
    let (mut a, mut b) = (a0, b0);
    resolve_pair(&mut a, &mut b, 500);
    assert_eq!((a, b), (a0, b0));
    let c0 = body(0, 0, 1, 0, 1, 1);
    let d0 = body(2, 0, -1, 0, 1, 1);
    let (mut c, mut d) = (c0, d0);
    resolve_pair(&mut c, &mut d, 500);
    assert_eq!(c.velocity, Point::new(0, 0));
    assert_eq!(d.velocity, Point::new(0, 0));
    assert_eq!(c.position, c0.position);
}

#[test]
fn three_body_cluster_converges() {
    let mut bodies = vec![
        body(0, 0, 0, 0, 3, 1000),
        body(1500, 0, 0, 0, 3, 1000),
        body(750, 1299, 0, 0, 3, 1000),
    ];
    let pairs = vec![(0, 1), (0, 2), (1, 2)];
    assert!(depth(&bodies[0], &bodies[1]) >= 500);
    solve(&mut bodies, &pairs, 16, 500);
    let worst = depth(&bodies[0], &bodies[1])
        .max(depth(&bodies[0], &bodies[2]))
        .max(depth(&bodies[1], &bodies[2]));
    assert!(worst <= 1, "largest remaining overlap {}", worst);
}

#[test]
fn resolve_pairs_passes_over_malformed_pairs() {
    let mut bodies = vec![body(0, 0, 10, 0, 1, 10), body(15, 0, -10, 0, 1, 10)];
    let before = bodies.clone();
    resolve_pairs(&mut bodies, &vec![(1, 0), (0, 2), (0, 0)], 500);
    assert_eq!(bodies, before);
    resolve_pairs(&mut bodies, &vec![(0, 1)], 500);
    assert_eq!(bodies[0].velocity, Point::new(-5, 0));
}

#[test]
fn broad_phase_pairs_once_lower_first() {
    let bodies = vec![
        body(0, 0, 0, 0, 1, 10),
        body(15, 0, 0, 0, 1, 10),
        body(100, 100, 0, 0, 1, 10),
        body(0, 30, 0, 0, 1, 20),
    ];
    let snap = snapshot(&bodies);
    assert_eq!(snap[3], (3, Point::new(0, 30)));
    let index = rebuild(config().world(), 1, &snap);
    let mut pairs = candidate_pairs(&index, &bodies);
    pairs.sort();
    assert_eq!(pairs, vec![(0, 1), (0, 3), (1, 3)]);
}

#[test]
fn search_box_pads_two_point_one_radii() {
    let b = body(5, -5, 0, 0, 1, 10);
    assert_eq!(search_box(&b), Rect::new(-16, -26, 26, 16));
}

#[test]
fn step_resolves_and_moves() {
    let mut bodies = vec![body(0, 0, 10, 0, 1, 10), body(15, 0, -10, 0, 1, 10), body(300, 300, 0, 0, 1, 1)];
    let c = Config { solver_iterations: 1, ..config() };
    let pairs = step(&mut bodies, &c, 1);
    assert_eq!(pairs, vec![(0, 1)]);
    assert_eq!(bodies[0].velocity, Point::new(-5, 0));
    assert_eq!(bodies[0].position, Point::new(-8, 0));
    assert_eq!(bodies[1].position, Point::new(23, 0));
    assert_eq!(bodies[2].position, Point::new(300, 300));
}

#[test]
fn integer_helpers() {
    assert_eq!(isqrt(0), 0);
    assert_eq!(isqrt(1), 1);
    assert_eq!(isqrt(15), 3);
    assert_eq!(isqrt(16), 4);
    assert_eq!(isqrt(u64::MAX), 4294967295);
    assert_eq!(div_trunc_i128(-7, 2), -3);
    assert_eq!(div_trunc_i128(7, 2), 3);
    assert_eq!(clamp_i128(i128::from(LIMIT) + 5), LIMIT);
    assert_eq!(clamp_i128(-i128::from(LIMIT) - 5), -LIMIT);
    assert_eq!(clamp_i128(-12), -12);
}

#[test]
fn oblique_contact_keeps_momentum_within_rounding() {
    let mut a = body(0, 0, 7, 3, 2, 10);
    let mut b = body(9, 5, -4, -6, 5, 10);
    let (px, py) = (a.mass * a.velocity.x + b.mass * b.velocity.x, a.mass * a.velocity.y + b.mass * b.velocity.y);
    resolve_pair(&mut a, &mut b, 500);
    assert_ne!(a.velocity, Point::new(7, 3));
    let (qx, qy) = (a.mass * a.velocity.x + b.mass * b.velocity.x, a.mass * a.velocity.y + b.mass * b.velocity.y);
    assert!((qx - px).abs() < a.mass + b.mass);
    assert!((qy - py).abs() < a.mass + b.mass);
}
