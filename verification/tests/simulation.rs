use dla::config::Globals;
use dla::dla::{draw_point, grow_radius, in_unit_disk, smooth, DLA};
use dla::geometry::{Vector, LIMIT, UNIT};
use dla::grid::Extent;
use dla::particle::{Color, DynamicParticle, StaticParticle};
use dla::world::Branch;

fn white() -> Color {
    Color { r: 65535, g: 65535, b: 65535, a: 65535 }
}

fn unit_speed(v: Vector) -> bool {
    let n = v.length_squared();
    let vx = (v.x.unsigned_abs() + 1) as u128;
    let vy = (v.y.unsigned_abs() + 1) as u128;
    n <= 1_000_000_000_000 && 1_000_000_000_000 < vx * vx + vy * vy
}

fn covers(outer: Extent, inner: Extent) -> bool {
    outer.xmin <= inner.xmin && inner.xmax <= outer.xmax && outer.ymin <= inner.ymin && inner.ymax <= outer.ymax
}

#[test]
fn new_simulation_holds_the_seed_alone() {
    let globals = Globals::default();
    let sim = DLA::new(&globals);
    assert!(sim.dynamic().is_empty());
    assert!(sim.lines().is_empty());
    assert_eq!(sim.bins().len(), 1);
    assert_eq!(sim.bins().iter()[0], StaticParticle { pos: Vector { x: 0, y: 0 }, color: white() });
    assert_eq!(sim.world_radius(), 1_000_000);
    assert_eq!(sim.display_radius_target(), 100_000);
    assert_eq!(sim.display_radius(), 80_000);
    assert_eq!(sim.bins().bounds(), Extent { xmin: -500_000, xmax: 500_000, ymin: -500_000, ymax: 500_000 });
}

#[test]
fn new_simulation_takes_the_seed_colour_from_the_parameters() {
    let seed = Color { r: 1, g: 2, b: 3, a: 4 };
    let globals = Globals { seed_color: seed, ..Globals::default() };
    let sim = DLA::new(&globals);
    assert_eq!(sim.bins().iter()[0].color, seed);
}

#[test]
fn smoothing_is_a_weighted_mean() {
    assert_eq!(smooth(80_000, 100_000, 950_000), 81_000);
    assert_eq!(smooth(80_000, 100_000, 0), 100_000);
    assert_eq!(smooth(80_000, 100_000, UNIT), 80_000);
    assert_eq!(smooth(100_000, 80_000, 500_000), 90_000);
    assert_eq!(smooth(0, 0, 333_333), 0);
    assert_eq!(smooth(LIMIT, LIMIT, 950_000), LIMIT);
    // (7 * 950_000 + 8 * 50_000) / 1_000_000 = 7.05
    assert_eq!(smooth(7, 8, 950_000), 7);
}

#[test]
fn camera_moves_the_view_toward_its_target() {
    let globals = Globals::default();
    let mut sim = DLA::new(&globals);
    assert_eq!(sim.update_camera(&globals), 81_000);
    assert_eq!(sim.display_radius(), 81_000);
    assert_eq!(sim.update_camera(&globals), 81_950);
    assert_eq!(sim.display_radius_target(), 100_000);
    assert_eq!(sim.world_radius(), 1_000_000);
    let mut last = sim.display_radius();
    for _ in 0..500 {
        let now = sim.update_camera(&globals);
        assert!(last <= now && now <= 100_000);
        last = now;
    }
    assert!(last >= 99_980);
}

#[test]
fn radius_grows_to_its_ratio_of_the_distance() {
    assert_eq!(grow_radius(1_000_000, Vector { x: 20_000, y: 0 }, 1_600_000), 1_000_000);
    assert_eq!(grow_radius(1_000_000, Vector { x: 1_000_000, y: 0 }, 1_600_000), 1_600_000);
    assert_eq!(grow_radius(100_000, Vector { x: 3_000_000, y: -4_000_000 }, 1_100_000), 5_500_000);
    assert_eq!(grow_radius(100_000, Vector { x: 0, y: 0 }, 1_100_000), 100_000);
    assert_eq!(grow_radius(100_000, Vector { x: 1_000_000, y: 1_000_000 }, 0), 100_000);
    // the floor of the length of (1, 1) is 1
    assert_eq!(grow_radius(0, Vector { x: 1, y: 1 }, 3_000_000), 3);
    assert_eq!(grow_radius(0, Vector { x: 7, y: 0 }, 1_500_000), 10);
}

#[test]
fn radius_stops_growing_at_the_limit() {
    assert_eq!(grow_radius(LIMIT - 5, Vector { x: LIMIT, y: 0 }, 1_600_000), LIMIT);
    assert_eq!(grow_radius(LIMIT, Vector { x: 1, y: 0 }, 1_600_000), LIMIT);
    assert_eq!(grow_radius(5, Vector { x: LIMIT, y: LIMIT }, LIMIT), LIMIT);
}

#[test]
fn unit_disk_test_excludes_the_centre_and_includes_the_rim() {
    assert!(!in_unit_disk(Vector { x: 0, y: 0 }));
    assert!(in_unit_disk(Vector { x: 1, y: 0 }));
    assert!(in_unit_disk(Vector { x: UNIT, y: 0 }));
    assert!(in_unit_disk(Vector { x: -600_000, y: 800_000 }));
    assert!(!in_unit_disk(Vector { x: -600_000, y: 800_001 }));
    assert!(!in_unit_disk(Vector { x: UNIT, y: UNIT }));
}

#[test]
fn drawn_points_lie_in_the_unit_square_and_vary() {
    let first = draw_point();
    let mut differs = false;
    let mut inside = 0;
    for _ in 0..1_000 {
        let a = draw_point();
        assert!(-UNIT <= a.x && a.x <= UNIT && -UNIT <= a.y && a.y <= UNIT);
        if a != first {
            differs = true;
        }
        if in_unit_disk(a) {
            inside += 1;
        }
    }
    assert!(differs);
    assert!(inside >= 990);
}

#[test]
fn released_particle_joins_the_moving_ones() {
    let globals = Globals::default();
    let mut sim = DLA::new(&globals);
    let p = DynamicParticle { pos: Vector { x: 5, y: 6 }, vel: Vector { x: 0, y: UNIT } };
    let q = DynamicParticle { pos: Vector { x: 7, y: 8 }, vel: Vector { x: -UNIT, y: 0 } };
    sim.release(p);
    sim.release(q);
    assert_eq!(sim.dynamic().clone(), vec![p, q]);
    assert_eq!(sim.bins().len(), 1);
}

#[test]
fn spawn_fills_up_to_the_target() {
    let globals = Globals::default();
    let mut sim = DLA::new(&globals);
    sim.spawn(&globals);
    assert_eq!(sim.dynamic().len(), 100);
    let first: Vec<DynamicParticle> = sim.dynamic().clone();
    sim.spawn(&globals);
    assert_eq!(sim.dynamic().clone(), first);
    let fewer = Globals { dynamic_target: 40, ..globals };
    sim.spawn(&fewer);
    assert_eq!(sim.dynamic().len(), 100);
    let more = Globals { dynamic_target: 130, ..globals };
    sim.spawn(&more);
    assert_eq!(sim.dynamic().len(), 130);
    assert_eq!(sim.dynamic()[..100].to_vec(), first);
    assert_eq!(sim.bins().len(), 1);
    assert_eq!(sim.world_radius(), UNIT);
}

#[test]
fn spawn_with_target_zero_does_nothing() {
    let globals = Globals { dynamic_target: 0, ..Globals::default() };
    let mut sim = DLA::new(&globals);
    sim.spawn(&globals);
    assert!(sim.dynamic().is_empty());
}

#[test]
fn spawned_particles_sit_on_the_boundary_heading_inward() {
    let globals = Globals { dynamic_target: 500, ..Globals::default() };
    let mut sim = DLA::new(&globals);
    sim.spawn(&globals);
    let radius = sim.world_radius() as i128;
    let mut quadrants = [0usize; 4];
    for p in sim.dynamic() {
        let n = p.pos.length_squared() as i128;
        let px = (p.pos.x.unsigned_abs() + 1) as i128;
        let py = (p.pos.y.unsigned_abs() + 1) as i128;
        assert!(n <= radius * radius);
        assert!(radius * radius < px * px + py * py);
        assert!(unit_speed(p.vel));
        // the cosine of the angle to the inward direction is at least cos(0.8) = 0.6967...
        let inward = -(p.vel.x as i128 * p.pos.x as i128 + p.vel.y as i128 * p.pos.y as i128);
        assert!(inward * 1000 >= 696 * radius * UNIT as i128);
        quadrants[(p.pos.x >= 0) as usize + 2 * (p.pos.y >= 0) as usize] += 1;
    }
    assert!(quadrants.iter().all(|&q| q >= 60));
}

#[test]
fn kinematic_update_moves_one_radius_along_the_velocity() {
    let globals = Globals::default();
    let mut sim = DLA::new(&globals);
    sim.release(DynamicParticle { pos: Vector { x: 0, y: 500_000 }, vel: Vector { x: 600_000, y: -800_000 } });
    sim.release(DynamicParticle { pos: Vector { x: -100, y: -100 }, vel: Vector { x: 0, y: UNIT } });
    sim.kinematic_update(&globals);
    assert_eq!(sim.dynamic()[0].pos, Vector { x: 6_000, y: 492_000 });
    assert_eq!(sim.dynamic()[0].vel, Vector { x: 600_000, y: -800_000 });
    assert_eq!(sim.dynamic()[1].pos, Vector { x: -100, y: 9_900 });
    assert_eq!(sim.dynamic()[1].vel, Vector { x: 0, y: UNIT });
    assert_eq!(sim.bins().len(), 1);
    assert_eq!(sim.world_radius(), UNIT);
}

#[test]
fn kinematic_update_bounces_off_the_boundary() {
    let globals = Globals::default();
    let mut sim = DLA::new(&globals);
    sim.release(DynamicParticle { pos: Vector { x: 995_000, y: 0 }, vel: Vector { x: UNIT, y: 0 } });
    sim.kinematic_update(&globals);
    let p = sim.dynamic()[0];
    assert_eq!(p.pos, Vector { x: UNIT, y: 0 });
    assert!(unit_speed(p.vel));
    // mirrored to (-1, 0), then turned by an angle of tangent at most one half
    assert!(p.vel.x <= -894_427);
    assert!(p.vel.y.abs() <= 447_214);
}

#[test]
fn kinematic_update_leaves_a_particle_on_the_boundary_alone() {
    let globals = Globals { particle_r: 62_500, ..Globals::default() };
    let mut sim = DLA::new(&globals);
    sim.release(DynamicParticle { pos: Vector { x: 937_500, y: 0 }, vel: Vector { x: UNIT, y: 0 } });
    sim.kinematic_update(&globals);
    assert_eq!(sim.dynamic()[0].pos, Vector { x: UNIT, y: 0 });
    assert_eq!(sim.dynamic()[0].vel, Vector { x: UNIT, y: 0 });
    sim.kinematic_update(&globals);
    assert_eq!(sim.dynamic()[0].pos, Vector { x: UNIT, y: 0 });
    assert!(sim.dynamic()[0].vel.x < 0);
}

#[test]
fn bounce_turns_vary() {
    let globals = Globals::default();
    let mut seen = Vec::new();
    for _ in 0..50 {
        let mut sim = DLA::new(&globals);
        sim.release(DynamicParticle { pos: Vector { x: 995_000, y: 0 }, vel: Vector { x: UNIT, y: 0 } });
        sim.kinematic_update(&globals);
        seen.push(sim.dynamic()[0].vel);
    }
    assert!(seen.iter().any(|v| *v != seen[0]));
    assert!(seen.iter().any(|v| v.y > 0));
    assert!(seen.iter().any(|v| v.y < 0));
}

#[test]
fn particles_stay_inside_the_world_at_unit_speed() {
    let globals = Globals { dynamic_target: 50, ..Globals::default() };
    let mut sim = DLA::new(&globals);
    sim.spawn(&globals);
    for _ in 0..1_000 {
        sim.kinematic_update(&globals);
        let radius = sim.world_radius() as u128;
        for p in sim.dynamic() {
            assert!(p.pos.length_squared() <= radius * radius);
            assert!(unit_speed(p.vel));
        }
    }
    assert_eq!(sim.dynamic().len(), 50);
}

#[test]
fn freeze_adds_particle_and_branch_and_grows_the_radii() {
    let globals = Globals::default();
    let mut sim = DLA::new(&globals);
    let hit = sim.bins().iter()[0];
    let fresh = StaticParticle { pos: Vector { x: 600_000, y: -800_000 }, color: Color { r: 9, g: 8, b: 7, a: 6 } };
    sim.freeze(&hit, fresh, &globals, 4_242);
    assert_eq!(sim.bins().len(), 2);
    assert!(sim.bins().iter().contains(&fresh));
    assert_eq!(
        sim.lines().clone(),
        vec![Branch { start: Vector { x: 0, y: 0 }, end: fresh.pos, color: fresh.color, born: 4_242 }]
    );
    assert_eq!(sim.world_radius(), 1_600_000);
    assert_eq!(sim.display_radius_target(), 1_100_000);
    assert_eq!(sim.display_radius(), 80_000);
    assert_eq!(sim.bins().bounds(), Extent { xmin: -500_000, xmax: 1_100_000, ymin: -1_300_000, ymax: 500_000 });
}

#[test]
fn collide_without_contact_keeps_every_particle() {
    let globals = Globals::default();
    let mut sim = DLA::new(&globals);
    let p = DynamicParticle { pos: Vector { x: 20_001, y: 0 }, vel: Vector { x: -UNIT, y: 0 } };
    let q = DynamicParticle { pos: Vector { x: 700_000, y: 0 }, vel: Vector { x: -UNIT, y: 0 } };
    sim.release(p);
    sim.release(q);
    sim.collide(&globals, 1);
    assert_eq!(sim.dynamic().clone(), vec![p, q]);
    assert_eq!(sim.bins().len(), 1);
    assert!(sim.lines().is_empty());
    assert_eq!(sim.world_radius(), UNIT);
    assert_eq!(sim.display_radius_target(), 100_000);
}

#[test]
fn collide_freezes_the_particles_that_touch_and_keeps_the_rest_in_order() {
    let globals = Globals::default();
    let mut sim = DLA::new(&globals);
    let a = DynamicParticle { pos: Vector { x: 300_000, y: 0 }, vel: Vector { x: -UNIT, y: 0 } };
    let b = DynamicParticle { pos: Vector { x: 0, y: -15_000 }, vel: Vector { x: 0, y: UNIT } };
    let c = DynamicParticle { pos: Vector { x: -300_000, y: 0 }, vel: Vector { x: UNIT, y: 0 } };
    sim.release(a);
    sim.release(b);
    sim.release(c);
    sim.collide(&globals, 77);
    assert_eq!(sim.dynamic().clone(), vec![a, c]);
    assert_eq!(sim.bins().len(), 2);
    assert_eq!(sim.lines().len(), 1);
    let line = sim.lines()[0];
    assert_eq!(line.start, Vector { x: 0, y: 0 });
    assert_eq!(line.end, Vector { x: 0, y: -20_000 });
    assert_eq!(line.born, 77);
    let fresh = sim.bins().iter().iter().find(|p| p.pos == line.end).copied().unwrap();
    assert_eq!(fresh.color, line.color);
}

#[test]
fn a_particle_on_top_of_the_seed_freezes_one_diameter_from_it() {
    let globals = Globals::default();
    let mut sim = DLA::new(&globals);
    sim.release(DynamicParticle { pos: Vector { x: 0, y: 0 }, vel: Vector { x: 0, y: UNIT } });
    sim.collide(&globals, 9);
    assert!(sim.dynamic().is_empty());
    assert_eq!(sim.bins().len(), 2);
    assert_eq!(sim.lines().len(), 1);
    assert_eq!(sim.lines()[0].start, Vector { x: 0, y: 0 });
    assert_eq!(sim.lines()[0].end, Vector { x: 20_000, y: 0 });
    let at_origin = sim.bins().iter().iter().filter(|p| p.pos == Vector { x: 0, y: 0 }).count();
    assert_eq!(at_origin, 1);
}

#[test]
fn a_particle_can_freeze_against_one_that_froze_in_the_same_pass() {
    let globals = Globals::default();
    let mut sim = DLA::new(&globals);
    // the first freezes at (20_000, 0); the second touches only that one
    sim.release(DynamicParticle { pos: Vector { x: 18_000, y: 0 }, vel: Vector { x: -UNIT, y: 0 } });
    sim.release(DynamicParticle { pos: Vector { x: 39_000, y: 0 }, vel: Vector { x: -UNIT, y: 0 } });
    sim.collide(&globals, 5);
    assert!(sim.dynamic().is_empty());
    assert_eq!(sim.bins().len(), 3);
    assert_eq!(sim.lines().len(), 2);
    assert_eq!(sim.lines()[0].end, Vector { x: 20_000, y: 0 });
    assert_eq!(sim.lines()[1].start, Vector { x: 20_000, y: 0 });
    assert_eq!(sim.lines()[1].end, Vector { x: 40_000, y: 0 });
}

#[test]
fn a_particle_heading_for_the_seed_freezes_one_diameter_from_it() {
    let globals = Globals::default();
    let mut sim = DLA::new(&globals);
    let seed = white();
    sim.release(DynamicParticle { pos: Vector { x: UNIT, y: 0 }, vel: Vector { x: -UNIT, y: 0 } });
    let mut ticks = 0u64;
    while !sim.dynamic().is_empty() {
        assert!(ticks < 200);
        sim.kinematic_update(&globals);
        sim.collide(&globals, ticks);
        ticks += 1;
    }
    // one radius per tick from 1_000_000 to 20_000
    assert_eq!(ticks, 98);
    assert_eq!(sim.bins().len(), 2);
    let fresh = sim.bins().iter().iter().find(|p| p.pos != Vector { x: 0, y: 0 }).copied().unwrap();
    assert_eq!(fresh.pos, Vector { x: 20_000, y: 0 });
    assert_eq!(fresh.pos.length_squared(), 400_000_000);
    assert!((fresh.color.r as i64 - seed.r as i64).abs() <= 4_587);
    assert!((fresh.color.g as i64 - seed.g as i64).abs() <= 4_587);
    assert!((fresh.color.b as i64 - seed.b as i64).abs() <= 4_587);
    assert_eq!(fresh.color.a, seed.a);
    assert!(sim.world_radius() >= 32_000);
    assert_eq!(sim.world_radius(), 1_000_000);
    assert_eq!(sim.display_radius_target(), 100_000);
    assert_eq!(
        sim.lines().clone(),
        vec![Branch { start: Vector { x: 0, y: 0 }, end: fresh.pos, color: fresh.color, born: 97 }]
    );
}

#[test]
fn the_index_holds_the_seed_alone_until_the_tick_of_contact() {
    let globals = Globals { world_aggregate_ratio: 60_000_000, view_aggregate_ratio: 7_000_000, ..Globals::default() };
    let mut sim = DLA::new(&globals);
    sim.release(DynamicParticle { pos: Vector { x: UNIT, y: 0 }, vel: Vector { x: -UNIT, y: 0 } });
    for tick in 1..=97i64 {
        sim.kinematic_update(&globals);
        sim.collide(&globals, tick as u64);
        assert_eq!(sim.bins().len(), 1);
        assert_eq!(
            sim.dynamic().clone(),
            vec![DynamicParticle { pos: Vector { x: UNIT - tick * 10_000, y: 0 }, vel: Vector { x: -UNIT, y: 0 } }]
        );
        assert_eq!(sim.world_radius(), UNIT);
    }
    sim.kinematic_update(&globals);
    sim.collide(&globals, 98);
    assert!(sim.dynamic().is_empty());
    assert_eq!(sim.bins().len(), 2);
    assert_eq!(sim.lines()[0].end, Vector { x: 20_000, y: 0 });
    // 20_000 * 60 and 20_000 * 7
    assert_eq!(sim.world_radius(), 1_200_000);
    assert_eq!(sim.display_radius_target(), 140_000);
}

#[test]
fn radii_and_rectangle_only_grow_while_the_aggregate_does() {
    let globals = Globals { particle_r: 30_000, dynamic_target: 200, ..Globals::default() };
    let mut sim = DLA::new(&globals);
    let mut world = sim.world_radius();
    let mut target = sim.display_radius_target();
    let mut extent = sim.bins().bounds();
    let mut frozen = sim.bins().len();
    for tick in 0..3_000u64 {
        sim.kinematic_update(&globals);
        assert_eq!(sim.world_radius(), world);
        let moving = sim.dynamic().len();
        sim.collide(&globals, tick);
        assert_eq!(sim.bins().len() - frozen, moving - sim.dynamic().len());
        assert_eq!(sim.lines().len(), sim.bins().len() - 1);
        sim.spawn(&globals);
        assert_eq!(sim.dynamic().len(), 200);
        sim.update_camera(&globals);
        assert!(sim.world_radius() >= world);
        assert!(sim.display_radius_target() >= target);
        assert!(covers(sim.bins().bounds(), extent));
        assert!(sim.display_radius() <= sim.display_radius_target());
        world = sim.world_radius();
        target = sim.display_radius_target();
        extent = sim.bins().bounds();
        frozen = sim.bins().len();
    }
    assert!(frozen > 20);
    assert!(target > 100_000);
    let offsets = sim.bins().offsets();
    let particles = sim.bins().iter();
    for c in 0..961 {
        for k in offsets[c]..offsets[c + 1] {
            assert_eq!(sim.bins().get_bin(particles[k].pos), Some(c));
        }
    }
    for line in sim.lines() {
        let n = line.end.distance_squared(line.start);
        let ox = ((line.end.x - line.start.x).unsigned_abs() + 1) as u128;
        let oy = ((line.end.y - line.start.y).unsigned_abs() + 1) as u128;
        assert!(n <= 3_600_000_000);
        assert!(3_600_000_000 < ox * ox + oy * oy);
    }
}
