use dla::geometry::{isqrt, magnitude, Vector, LIMIT, SPAN, UNIT};
use dla::motion::turn;
use dla::particle::DynamicParticle;

#[test]
fn isqrt_of_small_numbers() {
    assert_eq!(isqrt(0), 0);
    assert_eq!(isqrt(1), 1);
    assert_eq!(isqrt(2), 1);
    assert_eq!(isqrt(3), 1);
    assert_eq!(isqrt(4), 2);
    assert_eq!(isqrt(15), 3);
    assert_eq!(isqrt(16), 4);
    assert_eq!(isqrt(17), 4);
}

#[test]
fn isqrt_brackets_large_numbers() {
    assert_eq!(isqrt(1_000_000_000_000), 1_000_000);
    assert_eq!(isqrt(999_999_999_999), 999_999);
    assert_eq!(isqrt(1_000_002_000_001), 1_000_001);
    assert_eq!(isqrt(u128::MAX), u64::MAX);
    assert_eq!(isqrt((u64::MAX as u128) * (u64::MAX as u128)), u64::MAX);
    assert_eq!(isqrt((u64::MAX as u128) * (u64::MAX as u128) - 1), u64::MAX - 1);
}

#[test]
fn magnitude_drops_the_sign() {
    assert_eq!(magnitude(0), 0);
    assert_eq!(magnitude(7), 7);
    assert_eq!(magnitude(-7), 7);
    assert_eq!(magnitude(i64::MAX), i64::MAX as u64);
    assert_eq!(magnitude(-i64::MAX), i64::MAX as u64);
}

#[test]
fn vector_sum_difference_and_distance() {
    let a = Vector { x: 3, y: -4 };
    let b = Vector { x: -1, y: 2 };
    assert_eq!(a.plus(b), Vector { x: 2, y: -2 });
    assert_eq!(a.minus(b), Vector { x: 4, y: -6 });
    assert_eq!(a.distance_squared(b), 52);
    assert_eq!(b.distance_squared(a), 52);
    assert_eq!(a.length_squared(), 25);
    assert_eq!(a.floor_length(), 5);
    assert_eq!(Vector { x: 1, y: 1 }.floor_length(), 1);
}

#[test]
fn distance_of_far_points_does_not_overflow() {
    let a = Vector { x: 2 * SPAN, y: 2 * SPAN };
    let b = Vector { x: -2 * SPAN, y: -2 * SPAN };
    let side = (4 * SPAN) as u128;
    assert_eq!(a.distance_squared(b), 2 * side * side);
}

#[test]
fn scale_to_keeps_direction_of_a_pythagorean_vector() {
    assert_eq!(Vector { x: 3, y: 4 }.scale_to(10), Vector { x: 6, y: 8 });
    assert_eq!(Vector { x: -3, y: 4 }.scale_to(10), Vector { x: -6, y: 8 });
    assert_eq!(Vector { x: 3, y: -4 }.scale_to(5), Vector { x: 3, y: -4 });
    assert_eq!(Vector { x: -30, y: -40 }.scale_to(5), Vector { x: -3, y: -4 });
}

#[test]
fn scale_to_rounds_each_coordinate_toward_zero() {
    // 1000 / sqrt(2) = 707.106...
    assert_eq!(Vector { x: 1, y: 1 }.scale_to(1000), Vector { x: 707, y: 707 });
    assert_eq!(Vector { x: -5, y: 5 }.scale_to(1000), Vector { x: -707, y: 707 });
    // (1, 2) / sqrt(5) * 1000 = (447.21..., 894.42...)
    assert_eq!(Vector { x: 1, y: 2 }.scale_to(1000), Vector { x: 447, y: 894 });
}

#[test]
fn scale_to_of_zero_vector_or_zero_length_is_zero() {
    assert_eq!(Vector { x: 0, y: 0 }.scale_to(1000), Vector { x: 0, y: 0 });
    assert_eq!(Vector { x: 12, y: -7 }.scale_to(0), Vector { x: 0, y: 0 });
}

#[test]
fn scale_to_along_an_axis_is_exact() {
    assert_eq!(Vector { x: 17, y: 0 }.scale_to(LIMIT), Vector { x: LIMIT, y: 0 });
    assert_eq!(Vector { x: 0, y: -SPAN }.scale_to(2 * LIMIT), Vector { x: 0, y: -2 * LIMIT });
}

#[test]
fn scaled_vector_has_the_wanted_length_up_to_rounding() {
    let lens = [1i64, 7, 1000, UNIT, 20_000, LIMIT];
    let dirs = [
        Vector { x: 1, y: 1 },
        Vector { x: -3, y: 7 },
        Vector { x: 123_456, y: -654_321 },
        Vector { x: -SPAN, y: SPAN - 1 },
        Vector { x: 1, y: -SPAN },
    ];
    for len in lens {
        for d in dirs {
            let o = d.scale_to(len);
            let n = o.length_squared();
            let l = len as u128;
            let ox = (o.x.unsigned_abs() + 1) as u128;
            let oy = (o.y.unsigned_abs() + 1) as u128;
            assert!(n <= l * l);
            assert!(l * l < ox * ox + oy * oy);
            assert!((o.x >= 0) == (d.x >= 0) || o.x == 0);
            assert!((o.y >= 0) == (d.y >= 0) || o.y == 0);
        }
    }
}

#[test]
fn turn_by_zero_keeps_the_direction() {
    assert_eq!(turn(5, 0, 0), Vector { x: UNIT, y: 0 });
    assert_eq!(turn(0, -5, 0), Vector { x: 0, y: -UNIT });
    assert_eq!(turn(-3, 4, 0), Vector { x: -600_000, y: 800_000 });
}

#[test]
fn turn_by_tangent_one_is_an_eighth_of_a_circle() {
    // (1, 0) turned by 45 degrees: (0.7071067..., 0.7071067...)
    assert_eq!(turn(1, 0, UNIT), Vector { x: 707_106, y: 707_106 });
    assert_eq!(turn(1, 0, -UNIT), Vector { x: 707_106, y: -707_106 });
    // (0, 1) turned by 45 degrees: (-0.7071..., 0.7071...)
    assert_eq!(turn(0, 1, UNIT), Vector { x: -707_106, y: 707_106 });
}

#[test]
fn turn_of_wide_direction_is_brought_to_unit_speed() {
    let wide: i128 = 1 << 100;
    assert_eq!(turn(wide, 0, 0), Vector { x: UNIT, y: 0 });
    assert_eq!(turn(-wide, 0, 0), Vector { x: -UNIT, y: 0 });
    let v = turn(wide, -wide, 500_000);
    let n = v.length_squared();
    let vx = (v.x.unsigned_abs() + 1) as u128;
    let vy = (v.y.unsigned_abs() + 1) as u128;
    assert!(n <= 1_000_000_000_000);
    assert!(1_000_000_000_000 < vx * vx + vy * vy);
}

#[test]
fn turn_of_zero_direction_is_zero() {
    assert_eq!(turn(0, 0, 123_456), Vector { x: 0, y: 0 });
}

#[test]
fn step_inside_the_world_moves_along_the_velocity() {
    let p = DynamicParticle { pos: Vector { x: 100_000, y: -50_000 }, vel: Vector { x: 600_000, y: -800_000 } };
    assert_eq!(p.advanced(10_000), Vector { x: 106_000, y: -58_000 });
    let q = p.stepped_with(UNIT, 10_000, 123);
    assert_eq!(q.pos, Vector { x: 106_000, y: -58_000 });
    assert_eq!(q.vel, p.vel);
}

#[test]
fn step_displacement_rounds_toward_zero() {
    let p = DynamicParticle { pos: Vector { x: 0, y: 0 }, vel: Vector { x: 707_106, y: -707_106 } };
    // 707_106 * 3 / 1_000_000 = 2.12...
    assert_eq!(p.advanced(3), Vector { x: 2, y: -2 });
    assert_eq!(p.advanced(1), Vector { x: 0, y: 0 });
}

#[test]
fn boundary_test_is_strict() {
    assert!(!DynamicParticle::leaves_world(Vector { x: UNIT, y: 0 }, UNIT));
    assert!(!DynamicParticle::leaves_world(Vector { x: 600_000, y: 800_000 }, UNIT));
    assert!(DynamicParticle::leaves_world(Vector { x: UNIT + 1, y: 0 }, UNIT));
    assert!(DynamicParticle::leaves_world(Vector { x: 600_000, y: 800_001 }, UNIT));
    assert!(DynamicParticle::leaves_world(Vector { x: -600_001, y: -800_000 }, UNIT));
    assert!(!DynamicParticle::leaves_world(Vector { x: 600_000, y: 799_999 }, UNIT));
    assert!(!DynamicParticle::leaves_world(Vector { x: 0, y: 0 }, UNIT));
    assert!(!DynamicParticle::leaves_world(Vector { x: 0, y: 0 }, 0));
    assert!(DynamicParticle::leaves_world(Vector { x: 0, y: 1 }, 0));
}

#[test]
fn step_that_ends_on_the_boundary_does_not_bounce() {
    let p = DynamicParticle { pos: Vector { x: 937_500, y: 0 }, vel: Vector { x: UNIT, y: 0 } };
    let q = p.stepped_with(UNIT, 62_500, 500_000);
    assert_eq!(q.pos, Vector { x: UNIT, y: 0 });
    assert_eq!(q.vel, Vector { x: UNIT, y: 0 });
    let r = DynamicParticle { pos: Vector { x: 0, y: -799_400 }, vel: Vector { x: 600_000, y: -800_000 } };
    // one step of 1_000 along (0.6, -0.8) ends at (600, -800_200), inside
    let s = r.stepped_with(UNIT, 1_000, -500_000);
    assert_eq!(s.pos, Vector { x: 600, y: -800_200 });
    assert_eq!(s.vel, r.vel);
}

#[test]
fn step_past_the_boundary_by_one_grid_step_bounces() {
    let p = DynamicParticle { pos: Vector { x: 937_501, y: 0 }, vel: Vector { x: UNIT, y: 0 } };
    let q = p.stepped_with(UNIT, 62_500, 0);
    assert_eq!(q.pos, Vector { x: UNIT, y: 0 });
    assert_eq!(q.vel, Vector { x: -UNIT, y: 0 });
}

#[test]
fn head_on_bounce_reverses_the_velocity() {
    let p = DynamicParticle { pos: Vector { x: 995_000, y: 0 }, vel: Vector { x: UNIT, y: 0 } };
    let q = p.stepped_with(UNIT, 10_000, 0);
    assert_eq!(q.pos, Vector { x: UNIT, y: 0 });
    assert_eq!(q.vel, Vector { x: -UNIT, y: 0 });
}

#[test]
fn bounce_turns_the_mirrored_velocity() {
    let p = DynamicParticle { pos: Vector { x: 995_000, y: 0 }, vel: Vector { x: UNIT, y: 0 } };
    // mirrored: (-1, 0); turned by the angle of (1, 0.5): (-1, -0.5) / sqrt(1.25)
    let q = p.stepped_with(UNIT, 10_000, 500_000);
    assert_eq!(q.pos, Vector { x: UNIT, y: 0 });
    assert_eq!(q.vel, Vector { x: -894_427, y: -447_213 });
    let r = p.stepped_with(UNIT, 10_000, -500_000);
    assert_eq!(r.vel, Vector { x: -894_427, y: 447_213 });
}

#[test]
fn glancing_bounce_mirrors_in_the_tangent() {
    // At the top of the world, moving up and right at 45 degrees.
    let p = DynamicParticle { pos: Vector { x: 0, y: 999_000 }, vel: Vector { x: 707_106, y: 707_106 } };
    let to = p.advanced(10_000);
    assert_eq!(to, Vector { x: 7_071, y: 1_006_071 });
    let q = p.bounced(to, UNIT, 0);
    assert!(q.vel.x > 0 && q.vel.y < 0);
    let n = q.pos.length_squared();
    assert!(n <= 1_000_000_000_000);
    assert!(q.pos.y >= 999_974);
}

#[test]
fn speed_stays_at_one_through_many_bounces() {
    let mut p = DynamicParticle { pos: Vector { x: 0, y: 0 }, vel: Vector { x: 600_000, y: 800_000 } };
    let turns = [0i64, 500_000, -500_000, 123_456, -1, 1, 499_999, -250_000];
    let mut bounces = 0;
    for tick in 0..5_000usize {
        let before = p;
        p = p.stepped_with(UNIT / 10, 10_000, turns[tick % turns.len()]);
        if p.vel != before.vel {
            bounces += 1;
        }
        let n = p.vel.length_squared();
        let vx = (p.vel.x.unsigned_abs() + 1) as u128;
        let vy = (p.vel.y.unsigned_abs() + 1) as u128;
        assert!(n <= 1_000_000_000_000);
        assert!(1_000_000_000_000 < vx * vx + vy * vy);
        assert!(p.pos.length_squared() <= 100_000u128 * 100_000u128);
    }
    assert!(bounces > 100);
}

#[test]
fn spawned_particle_sits_on_the_boundary_heading_inward() {
    let p = DynamicParticle::spawned_with(UNIT, Vector { x: 500_000, y: 0 }, 0);
    assert_eq!(p.pos, Vector { x: UNIT, y: 0 });
    assert_eq!(p.vel, Vector { x: -UNIT, y: 0 });
    let q = DynamicParticle::spawned_with(2 * UNIT, Vector { x: -3, y: 4 }, 0);
    assert_eq!(q.pos, Vector { x: -1_200_000, y: 1_600_000 });
    assert_eq!(q.vel, Vector { x: 600_000, y: -800_000 });
}

#[test]
fn spawned_particle_from_the_origin_takes_the_x_axis() {
    let p = DynamicParticle::spawned_with(UNIT, Vector { x: 0, y: 0 }, 0);
    assert_eq!(p.pos, Vector { x: UNIT, y: 0 });
    assert_eq!(p.vel, Vector { x: -UNIT, y: 0 });
}

#[test]
fn spawned_velocity_is_turned_by_the_drawn_tangent() {
    let p = DynamicParticle::spawned_with(UNIT, Vector { x: 1, y: 0 }, UNIT);
    // inward (-1, 0) turned by 45 degrees: (-0.7071..., -0.7071...)
    assert_eq!(p.vel, Vector { x: -707_106, y: -707_106 });
}
