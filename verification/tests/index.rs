use dla::bins::Bins;
use dla::config::Globals;
use dla::geometry::{Vector, UNIT};
use dla::grid::Extent;
use dla::particle::{Color, DynamicParticle, StaticParticle};

fn white() -> Color {
    Color { r: 65535, g: 65535, b: 65535, a: 65535 }
}

fn tagged(x: i64, y: i64, tag: u16) -> StaticParticle {
    StaticParticle { pos: Vector { x, y }, color: Color { r: tag, g: 0, b: 0, a: 65535 } }
}

fn probe_at(x: i64, y: i64) -> DynamicParticle {
    DynamicParticle { pos: Vector { x, y }, vel: Vector { x: UNIT, y: 0 } }
}

fn seeded() -> (Bins, Globals) {
    let globals = Globals::default();
    let mut index = Bins::new(&globals);
    index.insert(StaticParticle { pos: Vector { x: 0, y: 0 }, color: white() }, &globals);
    (index, globals)
}

fn covers(outer: Extent, inner: Extent) -> bool {
    outer.xmin <= inner.xmin && inner.xmax <= outer.xmax && outer.ymin <= inner.ymin && inner.ymax <= outer.ymax
}

fn assert_bucketed(index: &Bins, cells: usize) {
    let offsets = index.offsets();
    let particles = index.iter();
    assert_eq!(offsets.len(), cells + 1);
    assert_eq!(offsets[0], 0);
    assert_eq!(offsets[cells], particles.len());
    assert_eq!(index.len(), particles.len());
    for c in 0..cells {
        assert!(offsets[c] <= offsets[c + 1]);
        for k in offsets[c]..offsets[c + 1] {
            assert_eq!(index.get_bin(particles[k].pos), Some(c));
        }
    }
}

struct Lcg(u64);

impl Lcg {
    fn next(&mut self) -> u64 {
        self.0 = self.0.wrapping_mul(6364136223846793005).wrapping_add(1442695040888963407);
        self.0 >> 33
    }

    fn coordinate(&mut self, reach: i64) -> i64 {
        (self.next() % (2 * reach as u64 + 1)) as i64 - reach
    }

    fn in_disk(&mut self, radius: i64) -> Vector {
        loop {
            let v = Vector { x: self.coordinate(radius), y: self.coordinate(radius) };
            if v.x * v.x + v.y * v.y <= radius * radius {
                return v;
            }
        }
    }
}

#[test]
fn fresh_index_is_empty() {
    let globals = Globals::default();
    let index = Bins::new(&globals);
    assert_eq!(index.len(), 0);
    assert!(index.iter().is_empty());
    assert_eq!(index.offsets().len(), 31 * 31 + 1);
    assert!(index.offsets().iter().all(|&o| o == 0));
    assert_eq!(index.bounds(), Extent { xmin: 0, xmax: 0, ymin: 0, ymax: 0 });
    assert!(index.get_bin(Vector { x: 0, y: 0 }).is_none());
    assert!(index.get_colliding(&probe_at(0, 0), &globals).is_none());
}

#[test]
fn first_insert_regrids_around_the_particle() {
    let (index, _) = seeded();
    let r = index.rect();
    assert_eq!((r.x, r.y, r.w, r.h), (-500_000, -500_000, 1_000_000, 1_000_000));
    assert_eq!(index.bounds(), Extent { xmin: -500_000, xmax: 500_000, ymin: -500_000, ymax: 500_000 });
    assert_eq!(index.get_bin(Vector { x: 0, y: 0 }), Some(15 + 15 * 31));
    assert_eq!(index.len(), 1);
    assert_bucketed(&index, 961);
}

#[test]
fn cell_of_a_point_by_the_formula() {
    assert_eq!(Bins::get_bin_static(0, 10, 0, 10, Vector { x: 0, y: 0 }, 2), Some(0));
    assert_eq!(Bins::get_bin_static(0, 10, 0, 10, Vector { x: 4, y: 4 }, 2), Some(0));
    assert_eq!(Bins::get_bin_static(0, 10, 0, 10, Vector { x: 5, y: 0 }, 2), Some(1));
    assert_eq!(Bins::get_bin_static(0, 10, 0, 10, Vector { x: 9, y: 4 }, 2), Some(1));
    assert_eq!(Bins::get_bin_static(0, 10, 0, 10, Vector { x: 0, y: 5 }, 2), Some(2));
    assert_eq!(Bins::get_bin_static(0, 10, 0, 10, Vector { x: 9, y: 9 }, 2), Some(3));
    assert_eq!(Bins::get_bin_static(-7, 13, 100, 103, Vector { x: 3, y: 101 }, 3), Some(1 + 1 * 3));
    assert_eq!(Bins::get_bin_static(-7, 13, 100, 103, Vector { x: 12, y: 102 }, 3), Some(2 + 2 * 3));
}

#[test]
fn point_outside_the_rectangle_has_no_cell() {
    assert_eq!(Bins::get_bin_static(0, 10, 0, 10, Vector { x: 10, y: 5 }, 2), None);
    assert_eq!(Bins::get_bin_static(0, 10, 0, 10, Vector { x: 5, y: 10 }, 2), None);
    assert_eq!(Bins::get_bin_static(0, 10, 0, 10, Vector { x: -1, y: 5 }, 2), None);
    assert_eq!(Bins::get_bin_static(0, 10, 0, 10, Vector { x: 5, y: -1 }, 2), None);
    assert_eq!(Bins::get_bin_static(0, 0, 0, 0, Vector { x: 0, y: 0 }, 2), None);
    assert_eq!(Bins::get_bin_static(0, 10, 3, 3, Vector { x: 5, y: 3 }, 2), None);
}

#[test]
fn corners_of_the_indexed_rectangle() {
    let (index, _) = seeded();
    assert_eq!(index.get_bin(Vector { x: -500_000, y: -500_000 }), Some(0));
    assert_eq!(index.get_bin(Vector { x: 499_999, y: -500_000 }), Some(30));
    assert_eq!(index.get_bin(Vector { x: -500_000, y: 499_999 }), Some(30 * 31));
    assert_eq!(index.get_bin(Vector { x: 499_999, y: 499_999 }), Some(960));
    assert_eq!(index.get_bin(Vector { x: 500_000, y: 0 }), None);
    assert_eq!(index.get_bin(Vector { x: 0, y: 500_000 }), None);
    assert_eq!(index.get_bin(Vector { x: -500_001, y: 0 }), None);
}

#[test]
fn interior_insert_goes_to_the_start_of_its_run() {
    let (mut index, globals) = seeded();
    let before = index.bounds();
    index.insert(tagged(100_000, 100_000, 1), &globals);
    index.insert(tagged(100_001, 100_000, 2), &globals);
    index.insert(tagged(-400_000, -400_000, 3), &globals);
    assert_eq!(index.bounds(), before);
    let cell = 18 + 18 * 31;
    assert_eq!(index.get_bin(Vector { x: 100_000, y: 100_000 }), Some(cell));
    let particles = index.iter();
    let tags: Vec<u16> = particles.iter().map(|p| p.color.r).collect();
    assert_eq!(tags, vec![3, 65535, 2, 1]);
    let offsets = index.offsets();
    assert_eq!(offsets[3 + 3 * 31], 0);
    assert_eq!(offsets[3 + 3 * 31 + 1], 1);
    assert_eq!(offsets[480], 1);
    assert_eq!(offsets[481], 2);
    assert_eq!(offsets[cell], 2);
    assert_eq!(offsets[cell + 1], 4);
    assert_eq!(offsets[961], 4);
    assert_bucketed(&index, 961);
}

#[test]
fn insert_near_an_edge_grows_that_side_only() {
    let (mut index, globals) = seeded();
    index.insert(tagged(450_001, 0, 1), &globals);
    assert_eq!(index.bounds(), Extent { xmin: -500_000, xmax: 950_001, ymin: -500_000, ymax: 500_000 });
    assert_eq!(index.len(), 2);
    assert_bucketed(&index, 961);
}

#[test]
fn insert_at_the_inner_margin_does_not_regrid() {
    let (mut index, globals) = seeded();
    let before = index.bounds();
    index.insert(tagged(450_000, -450_000, 1), &globals);
    assert_eq!(index.bounds(), before);
    assert_bucketed(&index, 961);
}

#[test]
fn insert_outside_the_rectangle_grows_it_to_the_outer_margin() {
    let (mut index, globals) = seeded();
    index.insert(tagged(-2_000_000, 3_000_000, 1), &globals);
    assert_eq!(index.bounds(), Extent { xmin: -2_500_000, xmax: 500_000, ymin: -500_000, ymax: 3_500_000 });
    assert_eq!(index.get_bin(Vector { x: -2_000_000, y: 3_000_000 }).is_some(), true);
    assert_bucketed(&index, 961);
}

#[test]
fn regrid_keeps_the_order_within_a_cell() {
    let globals = Globals { bin_count: 2, ..Globals::default() };
    let mut index = Bins::new(&globals);
    index.insert(tagged(0, 0, 1), &globals);
    index.insert(tagged(100_000, 100_000, 2), &globals);
    index.insert(tagged(-100_000, -100_000, 3), &globals);
    index.insert(tagged(200_000, 200_000, 4), &globals);
    // rectangle [-500_000, 500_000) squared, two cells a side; fast path puts the
    // later particle of a cell first
    let tags: Vec<u16> = index.iter().iter().map(|p| p.color.r).collect();
    assert_eq!(tags, vec![3, 4, 2, 1]);
    // regrid: x grows to [-500_000, 1_400_000), the middle is at 450_000
    index.insert(tagged(900_000, -1, 5), &globals);
    assert_eq!(index.bounds(), Extent { xmin: -500_000, xmax: 1_400_000, ymin: -500_001, ymax: 500_000 });
    let tags: Vec<u16> = index.iter().iter().map(|p| p.color.r).collect();
    // cell 0 (left, low): 3; cell 1 (right, low): 5; cell 2 (left, high): 4, 2, 1 in their former order
    assert_eq!(tags, vec![3, 5, 4, 2, 1]);
    assert_eq!(index.offsets().clone(), vec![0, 1, 2, 5, 5]);
    assert_bucketed(&index, 4);
}

#[test]
fn single_cell_grid_holds_everything_in_one_run() {
    let globals = Globals { bin_count: 1, ..Globals::default() };
    let mut index = Bins::new(&globals);
    for i in 0..50i64 {
        index.insert(tagged(i * 37_000 - 900_000, 5 * i, i as u16), &globals);
    }
    assert_eq!(index.len(), 50);
    assert_eq!(index.offsets().clone(), vec![0, 50]);
    assert_bucketed(&index, 1);
}

#[test]
fn rectangle_never_shrinks() {
    let (mut index, globals) = seeded();
    let mut rng = Lcg(7);
    let mut last = index.bounds();
    for _ in 0..2_000 {
        let pos = rng.in_disk(3 * UNIT);
        index.insert(StaticParticle { pos, color: white() }, &globals);
        let now = index.bounds();
        assert!(covers(now, last));
        assert!(now.xmin <= pos.x && pos.x < now.xmax && now.ymin <= pos.y && pos.y < now.ymax);
        last = now;
    }
    assert_eq!(index.len(), 2_001);
    assert_bucketed(&index, 961);
}

#[test]
fn bucket_invariant_after_every_insert() {
    let globals = Globals { bin_count: 5, ..Globals::default() };
    let mut index = Bins::new(&globals);
    let mut rng = Lcg(11);
    for n in 0..300usize {
        let reach = 100_000 + 10_000 * n as i64;
        let pos = Vector { x: rng.coordinate(reach), y: rng.coordinate(reach) };
        index.insert(StaticParticle { pos, color: white() }, &globals);
        assert_eq!(index.len(), n + 1);
        assert_bucketed(&index, 25);
    }
}

#[test]
fn ten_thousand_particles_in_a_unit_disk_are_all_retrievable() {
    let globals = Globals::default();
    let mut index = Bins::new(&globals);
    let mut rng = Lcg(2024);
    let mut inserted = Vec::new();
    let started = std::time::Instant::now();
    for i in 0..10_000u32 {
        let pos = rng.in_disk(UNIT);
        let p = StaticParticle { pos, color: Color { r: (i % 65_536) as u16, g: (i / 65_536) as u16, b: 0, a: 65535 } };
        index.insert(p, &globals);
        inserted.push(p);
    }
    let took = started.elapsed();
    assert!(took.as_secs() < 10);
    assert_eq!(index.len(), 10_000);
    assert_bucketed(&index, 961);
    let offsets = index.offsets();
    let particles = index.iter();
    for p in &inserted {
        let c = index.get_bin(p.pos).unwrap();
        assert!(particles[offsets[c]..offsets[c + 1]].contains(p));
    }
}

#[test]
fn insert_time_grows_less_than_quadratically() {
    let globals = Globals::default();
    let time_of = |count: u32| {
        let mut best = std::time::Duration::MAX;
        for round in 0..3u64 {
            let mut index = Bins::new(&globals);
            let mut rng = Lcg(99 + round);
            let started = std::time::Instant::now();
            for _ in 0..count {
                index.insert(StaticParticle { pos: rng.in_disk(UNIT), color: white() }, &globals);
            }
            best = best.min(started.elapsed());
            assert_eq!(index.len(), count as usize);
        }
        best
    };
    let small = time_of(2_500);
    let large = time_of(10_000);
    // four times the particles: sixteen times the time if quadratic
    assert!(large.as_nanos() < 12 * small.as_nanos() + 20_000_000);
}

#[test]
fn query_outside_the_rectangle_finds_nothing() {
    let (index, globals) = seeded();
    assert!(index.get_colliding(&probe_at(500_000, 0), &globals).is_none());
    assert!(index.get_colliding(&probe_at(-600_000, 10), &globals).is_none());
}

#[test]
fn query_finds_a_particle_in_its_own_cell() {
    let (index, globals) = seeded();
    let hit = index.get_colliding(&probe_at(15_000, -3_000), &globals);
    assert_eq!(hit.map(|p| p.pos), Some(Vector { x: 0, y: 0 }));
    assert_eq!(index.get_bin(Vector { x: 15_000, y: -3_000 }), index.get_bin(Vector { x: 0, y: 0 }));
}

#[test]
fn query_finds_a_particle_in_a_probed_cell() {
    let (index, globals) = seeded();
    assert_ne!(index.get_bin(Vector { x: 20_000, y: 0 }), index.get_bin(Vector { x: 0, y: 0 }));
    let hit = index.get_colliding(&probe_at(20_000, 0), &globals);
    assert_eq!(hit.map(|p| p.pos), Some(Vector { x: 0, y: 0 }));
    let hit = index.get_colliding(&probe_at(-20_000, 0), &globals);
    assert_eq!(hit.map(|p| p.pos), Some(Vector { x: 0, y: 0 }));
    let hit = index.get_colliding(&probe_at(0, 20_000), &globals);
    assert_eq!(hit.map(|p| p.pos), Some(Vector { x: 0, y: 0 }));
    let hit = index.get_colliding(&probe_at(-14_142, -14_142), &globals);
    assert_eq!(hit.map(|p| p.pos), Some(Vector { x: 0, y: 0 }));
}

#[test]
fn query_is_symmetric_at_one_diameter() {
    let globals = Globals::default();
    let a = Vector { x: 3_000, y: -2_000 };
    let b = Vector { x: 3_000 + 12_000, y: -2_000 + 16_000 };
    let mut first = Bins::new(&globals);
    first.insert(StaticParticle { pos: a, color: white() }, &globals);
    let mut second = Bins::new(&globals);
    second.insert(StaticParticle { pos: b, color: white() }, &globals);
    assert_eq!(first.get_colliding(&probe_at(b.x, b.y), &globals).map(|p| p.pos), Some(a));
    assert_eq!(second.get_colliding(&probe_at(a.x, a.y), &globals).map(|p| p.pos), Some(b));
}

#[test]
fn query_past_one_diameter_finds_nothing() {
    let (index, globals) = seeded();
    assert!(index.get_colliding(&probe_at(20_001, 0), &globals).is_none());
    assert!(index.get_colliding(&probe_at(0, -20_001), &globals).is_none());
    assert!(index.get_colliding(&probe_at(12_000, 16_001), &globals).is_none());
    assert!(index.get_colliding(&probe_at(15_000, 13_229), &globals).is_none());
    assert!(index.get_colliding(&probe_at(15_000, 13_228), &globals).is_some());
}

#[test]
fn query_misses_an_overlap_in_a_cell_that_no_probe_reaches() {
    let (mut index, globals) = seeded();
    // the cell of the origin ends at x = 16_129; a probe reaches one radius, 10_000
    index.insert(tagged(16_129, 0, 1), &globals);
    assert_eq!(index.get_bin(Vector { x: 16_129, y: 0 }), Some(480));
    assert_eq!(index.get_bin(Vector { x: 16_130, y: 0 }), Some(481));
    let p = probe_at(36_000, 0);
    assert!(p.collides(&tagged(16_129, 0, 1), &globals));
    assert_eq!(index.get_bin(Vector { x: 26_000, y: 0 }), Some(481));
    assert!(index.get_colliding(&p, &globals).is_none());
    // one step closer the probe lands in the cell of the particle
    let q = probe_at(26_129, 0);
    assert_eq!(index.get_colliding(&q, &globals).map(|s| s.color.r), Some(1));
}

#[test]
fn query_reports_the_first_overlap_in_bucket_order() {
    let (mut index, globals) = seeded();
    index.insert(tagged(1_000, 0, 1), &globals);
    index.insert(tagged(2_000, 0, 2), &globals);
    // bucket order of the cell: 2, 1, seed
    assert_eq!(index.get_colliding(&probe_at(5_000, 0), &globals).map(|s| s.color.r), Some(2));
    // only the seed is within a diameter of this point
    assert_eq!(index.get_colliding(&probe_at(-19_500, 0), &globals).map(|s| s.color.r), Some(65535));
}

#[test]
fn query_prefers_its_own_cell_to_a_probed_one() {
    let (mut index, globals) = seeded();
    index.insert(tagged(16_000, 0, 1), &globals);
    index.insert(tagged(17_000, 0, 2), &globals);
    assert_eq!(index.get_bin(Vector { x: 16_000, y: 0 }), Some(480));
    assert_eq!(index.get_bin(Vector { x: 17_000, y: 0 }), Some(481));
    assert_eq!(index.get_colliding(&probe_at(16_500, 0), &globals).map(|s| s.color.r), Some(2));
    assert_eq!(index.get_colliding(&probe_at(16_100, 0), &globals).map(|s| s.color.r), Some(1));
}
