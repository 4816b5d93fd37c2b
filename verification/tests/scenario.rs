//! The library at work in a small simulation.
//!
//! The library decides what is run when, which shape test applies, and who takes
//! which part of a correction. The arithmetic on scalars is written out in this
//! file, in the way a caller of the library does it: what these tests show is
//! that the decisions of the library make such a simulation behave, not that any
//! other program computes as this file does.

use web_slinger::collider::{
    calc_collision, correction_shares, stick_split, Collider, NarrowPhase, Shape, Share,
    StickSplit,
};
use web_slinger::schedule::{Phase, SubStepSchedule};
use web_slinger::collider::static_contact;

fn ordinate(x: f32) -> i64 {
    assert!(!x.is_nan());
    let bits = x.to_bits();
    let magnitude = (bits & 0x7fff_ffff) as i64;
    if bits >> 31 == 0 {
        magnitude
    } else {
        -magnitude
    }
}

fn scalar(ordinate: i64) -> f32 {
    if ordinate >= 0 {
        f32::from_bits(ordinate as u32)
    } else {
        -f32::from_bits((-ordinate) as u32)
    }
}

#[derive(Clone, Copy)]
struct Body {
    current: (f32, f32),
    old: (f32, f32),
    acceleration: (f32, f32),
    fixed: bool,
    drag: f32,
}

fn body(x: f32, y: f32, fixed: bool) -> Body {
    Body { current: (x, y), old: (x, y), acceleration: (0.0, 0.0), fixed, drag: 0.001 }
}

/// Runs the passes of `ticks` ticks on the bodies. Only the passes that these
/// scenes need do anything: the forces, the integration and the one stick.
fn run(bodies: &mut [Body; 2], stick: Option<f32>, gravity: f32, ticks: usize) {
    let mut schedule = SubStepSchedule::new();
    for _ in 0..ticks {
        loop {
            match schedule.next() {
                Phase::ResetForces => {
                    for body in bodies.iter_mut() {
                        body.acceleration = (0.0, 0.0);
                    }
                }
                Phase::ApplyGravity => {
                    for body in bodies.iter_mut() {
                        body.acceleration.1 -= gravity;
                    }
                }
                Phase::Integrate => {
                    for body in bodies.iter_mut() {
                        integrate(body);
                    }
                }
                Phase::SolveStickConstraints => {
                    if let Some(length) = stick {
                        let (a, b) = bodies.split_at_mut(1);
                        solve_stick(&mut a[0], &mut b[0], length, None);
                    }
                }
                _ => {}
            }
            if schedule.at_tick_start() {
                break;
            }
        }
    }
}

fn distance(a: (f32, f32), b: (f32, f32)) -> f32 {
    ((b.0 - a.0).powi(2) + (b.1 - a.1).powi(2)).sqrt()
}

fn fraction(share: Share) -> f32 {
    share.numerator as f32 / share.denominator as f32
}

fn integrate(body: &mut Body) {
    if body.fixed {
        return;
    }
    let velocity = (
        (body.current.0 - body.old.0) * (1.0 - body.drag),
        (body.current.1 - body.old.1) * (1.0 - body.drag),
    );
    body.old = body.current;
    body.current = (
        body.current.0 + velocity.0 + body.acceleration.0,
        body.current.1 + velocity.1 + body.acceleration.1,
    );
}

fn solve_stick(a: &mut Body, b: &mut Body, length: f32, ratio: Option<f32>) {
    let (part_a, part_b) = match stick_split(a.fixed, b.fixed, ratio.is_some()) {
        None => return,
        Some(StickSplit::ByMobility(a, b)) => (fraction(a), fraction(b)),
        Some(StickSplit::ByRatio) => (ratio.unwrap(), 1.0 - ratio.unwrap()),
    };
    let diff = (b.current.0 - a.current.0, b.current.1 - a.current.1);
    let dist = distance(a.current, b.current);
    if dist == 0.0 {
        return;
    }
    let err = dist - length;
    let direction = (diff.0 / dist, diff.1 / dist);
    a.current = (a.current.0 + direction.0 * err * part_a, a.current.1 + direction.1 * err * part_a);
    b.current = (b.current.0 - direction.0 * err * part_b, b.current.1 - direction.1 * err * part_b);
}

/// Whether two circles touch, the correction of the first, and the normal.
fn circle_circle(
    a: (f32, f32),
    b: (f32, f32),
    radius_a: f32,
    radius_b: f32,
) -> (bool, (f32, f32), (f32, f32)) {
    let dist = distance(a, b);
    if dist > radius_a + radius_b || dist == 0.0 {
        return (false, (0.0, 0.0), (0.0, 0.0));
    }
    let direction = ((b.0 - a.0) / dist, (b.1 - a.1) / dist);
    let depth = dist - radius_a - radius_b;
    (true, (direction.0 * depth, direction.1 * depth), (-direction.0, -direction.1))
}

fn circle(radius: f32) -> Collider {
    Collider { shape: Shape::Circle { radius: ordinate(radius) }, layer: 1, layer_mask: 1, trigger: false }
}

fn test_circles(
    a: (f32, f32),
    b: (f32, f32),
    radius_a: f32,
    radius_b: f32,
) -> (bool, (f32, f32), (f32, f32)) {
    match calc_collision(&circle(radius_a), &circle(radius_b)) {
        NarrowPhase::CircleCircle { radius_a, radius_b } => {
            circle_circle(a, b, scalar(radius_a), scalar(radius_b))
        }
        other => panic!("two circles got the test {:?}", other),
    }
}

#[test]
fn a_stick_to_a_fixed_body_settles_at_its_length() {
    let mut bodies = [body(0.0, 0.0, true), body(0.0, -10.0, false)];
    run(&mut bodies, Some(5.0), 0.0, 100);
    assert_eq!(bodies[0].current, (0.0, 0.0));
    assert!((distance(bodies[0].current, bodies[1].current) - 5.0).abs() < 1e-3);
}

#[test]
fn a_stick_holds_a_body_that_gravity_pulls_on() {
    let mut bodies = [body(0.0, 0.0, true), body(3.0, -4.0, false)];
    run(&mut bodies, Some(5.0), 0.01, 200);
    assert_eq!(bodies[0].current, (0.0, 0.0));
    // The last pass that moves the body in a tick is the stick.
    assert!((distance(bodies[0].current, bodies[1].current) - 5.0).abs() < 1e-3);
    assert!(bodies[1].current.1 < -4.0);
}

#[test]
fn a_tick_lets_gravity_add_up_nine_times() {
    let mut bodies = [body(0.0, 0.0, true), body(10.0, 0.0, false)];
    run(&mut bodies, None, 0.01, 1);
    assert!((bodies[1].acceleration.1 + 0.09).abs() < 1e-6);
    // The next tick starts from nothing and ends with the same.
    run(&mut bodies, None, 0.01, 1);
    assert!((bodies[1].acceleration.1 + 0.09).abs() < 1e-6);
}

#[test]
fn a_free_body_at_rest_and_without_force_stays() {
    let mut bodies = [body(1.5, -2.5, false), body(10.0, 0.0, true)];
    bodies[0].drag = 0.0;
    run(&mut bodies, None, 0.0, 10);
    assert_eq!(bodies[0].current, (1.5, -2.5));
    assert_eq!(bodies[1].current, (10.0, 0.0));
}

#[test]
fn a_free_body_falls_farther_with_every_sub_step() {
    let mut bodies = [body(0.0, 0.0, false), body(10.0, 0.0, true)];
    let mut last = 0.0f32;
    for _ in 0..5 {
        let before = bodies[0].current.1;
        run(&mut bodies, None, 0.01, 1);
        let fallen = before - bodies[0].current.1;
        assert!(fallen > last);
        last = fallen;
    }
    assert_eq!(bodies[1].current, (10.0, 0.0));
}

#[test]
fn a_stick_moves_two_free_bodies_towards_its_length() {
    for start in [10.0f32, 7.5, 5.5, 4.5, 3.0, 0.5] {
        let mut a = body(0.0, 0.0, false);
        let mut b = body(start, 0.0, false);
        solve_stick(&mut a, &mut b, 5.0, None);
        let after = distance(a.current, b.current);
        assert!((after - 5.0).abs() < (start - 5.0).abs());
        // Both ends move by the same amount, towards each other or apart.
        assert!((a.current.0 + (b.current.0 - start)).abs() < 1e-5);
    }
}

#[test]
fn a_stick_at_its_length_moves_nothing() {
    let mut a = body(1.0, 2.0, false);
    let mut b = body(1.0, 7.0, false);
    solve_stick(&mut a, &mut b, 5.0, None);
    assert_eq!(a.current, (1.0, 2.0));
    assert_eq!(b.current, (1.0, 7.0));
}

#[test]
fn a_stick_never_moves_a_fixed_body() {
    for ratio in [None, Some(0.5), Some(1.0)] {
        let mut a = body(0.0, 0.0, true);
        let mut b = body(0.0, -10.0, false);
        solve_stick(&mut a, &mut b, 5.0, ratio);
        assert_eq!(a.current, (0.0, 0.0));
        assert!((distance(a.current, b.current) - 5.0).abs() < 1e-5);

        let mut c = body(3.0, 0.0, true);
        let mut d = body(0.0, 4.0, true);
        solve_stick(&mut c, &mut d, 1.0, ratio);
        assert_eq!(c.current, (3.0, 0.0));
        assert_eq!(d.current, (0.0, 4.0));
    }
}

#[test]
fn a_stick_with_a_ratio_splits_unevenly_between_free_bodies() {
    let mut a = body(0.0, 0.0, false);
    let mut b = body(10.0, 0.0, false);
    solve_stick(&mut a, &mut b, 6.0, Some(0.75));
    assert!((a.current.0 - 3.0).abs() < 1e-5);
    assert!((b.current.0 - 9.0).abs() < 1e-5);
}

#[test]
fn circles_that_overlap_a_little_collide() {
    let epsilon = 0.01f32;
    let (collides, correction, normal) =
        test_circles((0.0, 0.0), (12.0 - epsilon, 0.0), 4.0, 8.0);
    assert!(collides);
    let magnitude = (correction.0.powi(2) + correction.1.powi(2)).sqrt();
    assert!((magnitude - epsilon).abs() < 1e-4);
    // The normal points from the second circle to the first.
    assert_eq!(normal, (-1.0, 0.0));
}

#[test]
fn circles_that_are_a_little_apart_do_not_collide() {
    let epsilon = 0.01f32;
    let (collides, ..) = test_circles((0.0, 0.0), (12.0 + epsilon, 0.0), 4.0, 8.0);
    assert!(!collides);
}

#[test]
fn a_collision_is_shared_as_the_bodies_can_move() {
    let (collides, correction, _) = test_circles((0.0, 0.0), (10.0, 0.0), 4.0, 8.0);
    assert!(collides);
    assert!((correction.0 + 2.0).abs() < 1e-5);

    let (a, b) = correction_shares(false, false).unwrap();
    assert_eq!(correction.0 * fraction(a), correction.0 * 0.5);
    assert_eq!(correction.0 * fraction(b), correction.0 * 0.5);

    let (a, b) = correction_shares(true, false).unwrap();
    assert_eq!(correction.0 * fraction(a), 0.0);
    assert_eq!(correction.0 * fraction(b), correction.0);

    assert_eq!(correction_shares(true, true), None);
}

#[test]
fn a_static_collider_pushes_out_free_bodies_only() {
    let wall = Collider {
        shape: Shape::Box { width: ordinate(15.0), height: ordinate(15.0) },
        layer: 1,
        layer_mask: 3,
        trigger: false,
    };
    let ball = Collider { layer: 2, ..circle(8.0) };
    let correction = (0.0f32, 2.0f32);
    for fixed in [false, true] {
        let mut resting = body(0.0, 21.0, fixed);
        let response = static_contact(&ball, resting.fixed, &wall);
        assert!(response.recorded);
        if response.moves {
            resting.current.1 += correction.1;
        }
        assert_eq!(resting.current, if fixed { (0.0, 21.0) } else { (0.0, 23.0) });
    }
}
