//! The first particle to reach the seed. A lone particle on the x axis,
//! heading straight for a seed at the origin, steps one radius per tick,
//! meets nothing until it is within a diameter of the seed, and then
//! freezes exactly one diameter from it.

use crate::config::Globals;
use crate::geometry::{lemma_sqrt_floor_square, max, min, Vector, LIMIT, UNIT};
use crate::grid::{cell_of, lemma_hit_sound, probe, Extent};
use crate::motion::{leaves, moved, stepped, trunc_div};
use crate::particle::{
    lemma_contact_on_axis, mutated, overlaps, DynamicParticle, StaticParticle,
};
use crate::world::{
    collision_ready, lemma_cleared, lemma_first_contact, lemma_initial, lemma_moved_all, Branch,
    Draws, World,
};
use vstd::arithmetic::div_mod::{lemma_div_by_multiple, lemma_fundamental_div_mod_converse};
use vstd::prelude::*;

verus! {

/// A particle on the x axis at `x`, heading for the origin at unit speed.
pub open spec fn heading_in(x: int) -> DynamicParticle {
    DynamicParticle { pos: Vector { x: x as i64, y: 0 }, vel: Vector { x: -1_000_000i64, y: 0 } }
}

/// The state holds one frozen particle, at the origin, and one moving
/// particle, inside the world on the x axis at `x > 0`, heading for the
/// origin.
pub open spec fn approaching(w: World, x: int, globals: Globals) -> bool {
    &&& w.wf()
    &&& collision_ready(globals)
    &&& 1 <= globals.particle_r
    &&& 0 <= globals.world_aggregate_ratio
    &&& 0 <= globals.view_aggregate_ratio
    &&& w.grid.particles.len() == 1
    &&& w.grid.particles[0].pos == (Vector { x: 0, y: 0 })
    &&& w.active == seq![heading_in(x)]
    &&& 0 < x <= w.world_radius
}

/// No tick of the run spawns.
pub open spec fn without_spawns(ticks: Seq<Draws>) -> bool {
    forall|k: int| 0 <= k < ticks.len() ==> (#[trigger] ticks[k]).spawns.len() == 0
}

/// The particle that freezes against `seed` from straight along the
/// positive x axis, with colour jitter `j`.
pub open spec fn first_frozen(seed: StaticParticle, radius: int, j: (int, int, int))
    -> StaticParticle {
    StaticParticle {
        pos: Vector { x: (seed.pos.x + 2 * radius) as i64, y: seed.pos.y },
        color: mutated(seed.color, j.0, j.1, j.2),
    }
}

/// A step along the x axis toward the origin, ending on the axis at or
/// before the origin's side of the world, is a step of exactly the step
/// length, without a bounce.
pub proof fn lemma_heading_step(x: int, world_radius: int, step: int, t: int)
    requires
        0 <= step,
        0 <= x - step,
        x <= world_radius <= LIMIT,
    ensures
        stepped(heading_in(x), world_radius, step, t) == heading_in(x - step),
{
    let p = heading_in(x);
    lemma_div_by_multiple(step, UNIT as int);
    assert((-1_000_000) * step == -(step * 1_000_000) && 0 * step == 0) by (nonlinear_arith);
    assert(trunc_div(p.vel.x * step, UNIT as int) == -step);
    assert(trunc_div(p.vel.y * step, UNIT as int) == 0);
    let to = moved(p.pos, p.vel, step);
    assert(to == (Vector { x: (x - step) as i64, y: 0 }));
    assert(!leaves(to, world_radius)) by (nonlinear_arith)
        requires
            to.norm_sq() == to.x * to.x + to.y * to.y,
            to.x == x - step,
            to.y == 0,
            0 <= x - step <= world_radius,
    ;
}

/// What the collision test makes of the lone particle after its step.
proof fn lemma_lone_settled(w: World, x: int, d: Draws, globals: Globals)
    requires
        approaching(w, x, globals),
        d.spawns.len() == 0,
        x - globals.particle_r > 0,
    ensures
        ({
            let q = heading_in(x - globals.particle_r);
            let c = w.cleared();
            &&& c.wf()
            &&& q.valid()
            &&& w.ticked(d.turns, d.jitters, d.spawns, globals, d.now) == c.settle_one(
                q,
                d.jitters.last(),
                globals,
                d.now,
            )
        }),
{
    let r = globals.particle_r as int;
    let q = heading_in(x - r);
    let m = w.moved_all(d.turns, r);
    assert(w.active[0] == heading_in(x));
    assert(w.active[0].valid());
    lemma_heading_step(x, w.world_radius, r, d.turns[0]);
    assert(m.active =~= seq![q]);
    lemma_moved_all(w, d.turns, r);
    assert(m.active[0].valid());
    lemma_cleared(m);
    let c = m.cleared();
    assert(c == w.cleared());
    reveal_with_fuel(World::settled, 3);
    assert(m.active.drop_last() =~= Seq::<DynamicParticle>::empty());
    assert(m.active.last() == q);
    let s = c.settled(m.active, d.jitters, globals, d.now);
    assert(s == c.settle_one(q, d.jitters.last(), globals, d.now));
    let e = s.spawned_all(d.spawns);
    assert(e.active =~= s.active);
    assert(e == s);
}

/// A tick before contact: the particle is one radius closer, and nothing
/// else has changed.
pub proof fn lemma_approach_tick(w: World, x: int, d: Draws, globals: Globals)
    requires
        approaching(w, x, globals),
        d.spawns.len() == 0,
        x - globals.particle_r > 2 * globals.particle_r,
    ensures
        w.ticked(d.turns, d.jitters, d.spawns, globals, d.now) == w.holding(
            seq![heading_in(x - globals.particle_r)],
        ),
        approaching(
            w.holding(seq![heading_in(x - globals.particle_r)]),
            x - globals.particle_r,
            globals,
        ),
{
    let r = globals.particle_r as int;
    let q = heading_in(x - r);
    let c = w.cleared();
    lemma_lone_settled(w, x, d, globals);
    lemma_hit_sound(c.grid, q.pos, r);
    if c.grid.colliding(q.pos, r).is_some() {
        let i = c.grid.hit_index(q.pos, r).unwrap();
        assert(i == 0);
        let seed = c.grid.particles[0];
        assert(q.pos.dist_sq(seed.pos) > 4 * r * r) by (nonlinear_arith)
            requires
                q.pos.dist_sq(seed.pos) == (q.pos.x - seed.pos.x) * (q.pos.x - seed.pos.x) + (
                q.pos.y - seed.pos.y) * (q.pos.y - seed.pos.y),
                q.pos.x - seed.pos.x == x - r,
                x - r > 2 * r,
                r >= 1,
        ;
    }
    let e = c.settle_one(q, d.jitters.last(), globals, d.now);
    assert(e == c.released(q));
    assert(e.active =~= seq![q]);
    let next = w.holding(seq![q]);
    assert(e == next);
    assert forall|i: int| 0 <= i < next.active.len() implies (#[trigger] next.active[i]).valid() by {
        assert(next.active[i] == q);
    }
}

/// After any number of ticks before contact, the particle is that many
/// radii closer, and nothing else has changed: the index still holds the
/// seed alone.
pub proof fn lemma_approach_run(w: World, x: int, ticks: Seq<Draws>, globals: Globals)
    requires
        approaching(w, x, globals),
        without_spawns(ticks),
        x - ticks.len() * globals.particle_r > 2 * globals.particle_r,
    ensures
        w.ran(ticks, globals) == w.holding(seq![heading_in(x - ticks.len() * globals.particle_r)]),
        approaching(w.ran(ticks, globals), x - ticks.len() * globals.particle_r, globals),
        w.ran(ticks, globals).grid == w.grid,
    decreases ticks.len(),
{
    let r = globals.particle_r as int;
    if ticks.len() == 0 {
        assert(0 * r == 0) by (nonlinear_arith);
        assert(w.holding(seq![heading_in(x)]) == w);
    } else {
        let head = ticks.drop_last();
        let d = ticks.last();
        let k = head.len() as int;
        assert((k + 1) * r == k * r + r && k * r >= 0) by (nonlinear_arith)
            requires
                k >= 0,
                r >= 1,
        ;
        assert(without_spawns(head)) by {
            assert forall|i: int| 0 <= i < head.len() implies (#[trigger] head[i]).spawns.len()
                == 0 by {
                assert(head[i] == ticks[i]);
            }
        }
        assert(d == ticks[ticks.len() - 1]);
        lemma_approach_run(w, x, head, globals);
        let mid = w.ran(head, globals);
        lemma_approach_tick(mid, x - k * r, d, globals);
        assert(mid.holding(seq![heading_in(x - k * r - r)]) == w.holding(
            seq![heading_in(x - (k + 1) * r)],
        ));
    }
}

/// The tick of contact. Where the particle's step brings it within a
/// diameter of the seed, and the grid puts the point one radius nearer the
/// seed into the seed's cell, the particle is gone from the moving ones and
/// a particle is frozen exactly one diameter from the seed on the x axis,
/// coloured like the seed up to the jitter; a branch leads to it; and the
/// radii have grown to their ratios of the diameter where that is more than
/// they were.
pub proof fn lemma_contact_tick(w: World, x: int, d: Draws, globals: Globals)
    requires
        approaching(w, x, globals),
        d.spawns.len() == 0,
        x > 2 * globals.particle_r,
        x - globals.particle_r <= 2 * globals.particle_r,
        w.grid.cell(Vector { x: (x - globals.particle_r) as i64, y: 0 }).is_some(),
        w.grid.cell(Vector { x: 0, y: 0 }) == w.grid.cell(
            Vector { x: (x - 2 * globals.particle_r) as i64, y: 0 },
        ),
    ensures
        ({
            let r = globals.particle_r as int;
            let seed = w.grid.particles[0];
            let fresh = first_frozen(seed, r, d.jitters.last());
            let e = w.ticked(d.turns, d.jitters, d.spawns, globals, d.now);
            &&& e == w.cleared().attached(seed, fresh, globals, d.now)
            &&& e.wf()
            &&& e.active.len() == 0
            &&& e.grid.particles.len() == 2
            &&& e.grid.particles.to_multiset() == w.grid.particles.to_multiset().insert(fresh)
            &&& fresh.pos == (Vector { x: (2 * r) as i64, y: 0 })
            &&& e.branches == w.branches.push(
                Branch { start: seed.pos, end: fresh.pos, color: fresh.color, born: d.now },
            )
            &&& e.world_radius == min(
                LIMIT as int,
                max(w.world_radius, (2 * r * globals.world_aggregate_ratio) / (UNIT as int)),
            )
            &&& e.display_radius_target == min(
                LIMIT as int,
                max(
                    w.display_radius_target,
                    (2 * r * globals.view_aggregate_ratio) / (UNIT as int),
                ),
            )
        }),
{
    let r = globals.particle_r as int;
    let q = heading_in(x - r);
    let c = w.cleared();
    let seed = w.grid.particles[0];
    let j = d.jitters.last();
    lemma_lone_settled(w, x, d, globals);
    assert((1int / 3 - 1) * r == -r && (1int % 3 - 1) * r == 0) by (nonlinear_arith);
    assert(probe(q.pos, r, 1) == (Vector { x: (x - 2 * r) as i64, y: 0 }));
    assert(overlaps(q.pos, seed.pos, r)) by (nonlinear_arith)
        requires
            overlaps(q.pos, seed.pos, r) == (q.pos.dist_sq(seed.pos) <= 4 * r * r),
            q.pos.dist_sq(seed.pos) == (q.pos.x - seed.pos.x) * (q.pos.x - seed.pos.x) + (q.pos.y
                - seed.pos.y) * (q.pos.y - seed.pos.y),
            q.pos.x - seed.pos.x == x - r,
            q.pos.y - seed.pos.y == 0,
            0 < x - r <= 2 * r,
    ;
    lemma_first_contact(c, q, j, globals, d.now, 1);
    lemma_contact_on_axis(q.pos, seed.pos, r);
    let fresh = first_frozen(seed, r, j);
    lemma_sqrt_floor_square(2 * r);
    assert(fresh.pos.norm_sq() == (2 * r) * (2 * r)) by (nonlinear_arith)
        requires
            fresh.pos.norm_sq() == fresh.pos.x * fresh.pos.x + fresh.pos.y * fresh.pos.y,
            fresh.pos.x == 2 * r,
            fresh.pos.y == 0,
    ;
    assert(fresh.pos.length() == 2 * r);
    assert(2 * r * globals.world_aggregate_ratio == (2 * r) * globals.world_aggregate_ratio && 2
        * r * globals.view_aggregate_ratio == (2 * r) * globals.view_aggregate_ratio)
        by (nonlinear_arith);
    let e = c.settle_one(q, j, globals, d.now);
    assert(e.active =~= Seq::<DynamicParticle>::empty());
}

/// The whole approach. A lone particle on the x axis at `x`, heading for
/// a seed at the origin, is still moving, and the index still holds the seed
/// alone, after every tick but the last of a run that ends with the first
/// tick to bring it within a diameter of the seed; the last tick freezes it
/// exactly one diameter from the seed, where the grid puts the point one
/// radius nearer the seed into the seed's cell.
pub proof fn lemma_straight_run(w: World, x: int, ticks: Seq<Draws>, globals: Globals)
    requires
        approaching(w, x, globals),
        without_spawns(ticks),
        ticks.len() >= 1,
        x - (ticks.len() - 1) * globals.particle_r > 2 * globals.particle_r,
        x - ticks.len() * globals.particle_r <= 2 * globals.particle_r,
        w.grid.cell(Vector { x: (x - ticks.len() * globals.particle_r) as i64, y: 0 }).is_some(),
        w.grid.cell(Vector { x: 0, y: 0 }) == w.grid.cell(
            Vector { x: (x - (ticks.len() + 1) * globals.particle_r) as i64, y: 0 },
        ),
    ensures
        forall|i: int|
            0 <= i < ticks.len() ==> #[trigger] w.ran(ticks.take(i), globals) == w.holding(
                seq![heading_in(x - i * globals.particle_r)],
            ),
        ({
            let r = globals.particle_r as int;
            let seed = w.grid.particles[0];
            let last = ticks.last();
            let fresh = first_frozen(seed, r, last.jitters.last());
            let e = w.ran(ticks, globals);
            &&& e.wf()
            &&& e.active.len() == 0
            &&& e.grid.particles.len() == 2
            &&& e.grid.particles.to_multiset() == w.grid.particles.to_multiset().insert(fresh)
            &&& fresh.pos == (Vector { x: (2 * r) as i64, y: 0 })
            &&& e.branches == w.branches.push(
                Branch { start: seed.pos, end: fresh.pos, color: fresh.color, born: last.now },
            )
            &&& e.world_radius == min(
                LIMIT as int,
                max(w.world_radius, (2 * r * globals.world_aggregate_ratio) / (UNIT as int)),
            )
            &&& e.display_radius_target == min(
                LIMIT as int,
                max(
                    w.display_radius_target,
                    (2 * r * globals.view_aggregate_ratio) / (UNIT as int),
                ),
            )
        }),
{
    let r = globals.particle_r as int;
    let n = ticks.len() as int;
    let head = ticks.drop_last();
    let d = ticks.last();
    assert(d == ticks[n - 1]);
    assert(n * r == (n - 1) * r + r && (n + 1) * r == (n - 1) * r + 2 * r) by (nonlinear_arith);
    assert forall|i: int| 0 <= i < n implies #[trigger] w.ran(ticks.take(i), globals)
        == w.holding(seq![heading_in(x - i * r)]) by {
        let part = ticks.take(i);
        assert(without_spawns(part)) by {
            assert forall|k: int| 0 <= k < part.len() implies (#[trigger] part[k]).spawns.len()
                == 0 by {
                assert(part[k] == ticks[k]);
            }
        }
        assert(i * r <= (n - 1) * r) by (nonlinear_arith)
            requires
                0 <= i <= n - 1,
                r >= 1,
        ;
        lemma_approach_run(w, x, part, globals);
    }
    assert(without_spawns(head)) by {
        assert forall|k: int| 0 <= k < head.len() implies (#[trigger] head[k]).spawns.len()
            == 0 by {
            assert(head[k] == ticks[k]);
        }
    }
    lemma_approach_run(w, x, head, globals);
    let mid = w.ran(head, globals);
    lemma_contact_tick(mid, x - (n - 1) * r, d, globals);
    assert(mid.cleared() == w.cleared());
}

/// The state of the seed scenario: a simulation just started, with one
/// particle released on the boundary of the world at (1, 0), heading for the
/// seed.
pub open spec fn scenario_start(globals: Globals) -> World {
    World::initial(globals).released(heading_in(1_000_000))
}

/// In a grid of 31 cells a side over the square of side one about the
/// origin, the point one radius of 0.01 from the origin on the x axis lies in
/// the cell of the origin, and the point two radii from it has a cell.
proof fn lemma_scenario_cells()
    ensures
        cell_of(
            Extent { xmin: -500_000i64, xmax: 500_000, ymin: -500_000i64, ymax: 500_000 },
            31,
            Vector { x: 20_000, y: 0 },
        ).is_some(),
        cell_of(
            Extent { xmin: -500_000i64, xmax: 500_000, ymin: -500_000i64, ymax: 500_000 },
            31,
            Vector { x: 0, y: 0 },
        ) == cell_of(
            Extent { xmin: -500_000i64, xmax: 500_000, ymin: -500_000i64, ymax: 500_000 },
            31,
            Vector { x: 10_000, y: 0 },
        ),
{
    lemma_fundamental_div_mod_converse(15_500_000, 1_000_000, 15, 500_000);
    lemma_fundamental_div_mod_converse(15_810_000, 1_000_000, 15, 810_000);
    assert(((0 - (-500_000)) * 31) / (500_000 - (-500_000)) == 15);
    assert(((10_000 - (-500_000)) * 31) / (500_000 - (-500_000)) == 15);
}

/// The particle of the seed scenario is at unit speed and within limits.
proof fn lemma_scenario_particle()
    ensures
        heading_in(1_000_000).valid(),
{
    let p = heading_in(1_000_000);
    assert(p.vel.norm_sq() == 1_000_000_000_000 && UNIT * UNIT == 1_000_000_000_000 && (
    1_000_000 + 1) * (1_000_000 + 1) + (0 + 1) * (0 + 1) == 1_000_002_000_002)
        by (nonlinear_arith)
        requires
            p.vel.norm_sq() == p.vel.x * p.vel.x + p.vel.y * p.vel.y,
            p.vel.x == -1_000_000,
            p.vel.y == 0,
    ;
}

/// The seed scenario starts with the seed alone in the index and the
/// particle approaching it, and its grid looks where the particle will be.
proof fn lemma_scenario_start(globals: Globals)
    requires
        globals.particle_r == 10_000,
        globals.bin_count == 31,
        globals.bin_margin_max == 500_000,
        0 <= globals.world_aggregate_ratio,
        0 <= globals.view_aggregate_ratio,
    ensures
        approaching(scenario_start(globals), 1_000_000, globals),
        scenario_start(globals).grid.particles[0] == (StaticParticle {
            pos: Vector { x: 0, y: 0 },
            color: globals.seed_color,
        }),
        scenario_start(globals).world_radius == 1_000_000,
        scenario_start(globals).grid.cell(Vector { x: 20_000, y: 0 }).is_some(),
        scenario_start(globals).grid.cell(Vector { x: 0, y: 0 }) == scenario_start(
            globals,
        ).grid.cell(Vector { x: 10_000, y: 0 }),
{
    let start = World::initial(globals);
    let p = heading_in(1_000_000);
    let w = scenario_start(globals);
    lemma_initial(globals);
    lemma_scenario_particle();
    lemma_scenario_cells();
    assert(w.active =~= seq![p]);
    assert forall|i: int| 0 <= i < w.active.len() implies (#[trigger] w.active[i]).valid() by {
        assert(w.active[i] == p);
    }
    assert(w.grid == start.grid);
}

/// The seed scenario. A simulation is started with a radius of 0.01, a
/// grid of 31 cells a side and an outer margin of 0.5, and one particle is
/// released on the boundary of the world at (1, 0), heading for the seed.
/// Whatever is drawn, it is still moving, and the index holds the seed
/// alone, after each of 97 ticks, and the 98th freezes it: no particle
/// moves, and the index holds the seed and one particle at (0.02, 0), one
/// diameter from the seed, coloured like the seed up to the jitter; the
/// world radius is at least its ratio of that diameter.
pub proof fn lemma_seed_scenario(globals: Globals, ticks: Seq<Draws>)
    requires
        globals.particle_r == 10_000,
        globals.bin_count == 31,
        globals.bin_margin_max == 500_000,
        0 <= globals.world_aggregate_ratio,
        0 <= globals.view_aggregate_ratio,
        ticks.len() == 98,
        without_spawns(ticks),
    ensures
        forall|i: int|
            0 <= i < 98 ==> #[trigger] scenario_start(globals).ran(ticks.take(i), globals)
                == scenario_start(globals).holding(seq![heading_in(1_000_000 - i * 10_000)]),
        ({
            let seed = StaticParticle { pos: Vector { x: 0, y: 0 }, color: globals.seed_color };
            let fresh = first_frozen(seed, 10_000, ticks.last().jitters.last());
            let e = scenario_start(globals).ran(ticks, globals);
            &&& e.wf()
            &&& e.active.len() == 0
            &&& e.grid.particles.len() == 2
            &&& e.grid.particles.to_multiset() == scenario_start(
                globals,
            ).grid.particles.to_multiset().insert(fresh)
            &&& fresh.pos == (Vector { x: 20_000, y: 0 })
            &&& e.world_radius == min(
                LIMIT as int,
                max(1_000_000, (20_000 * globals.world_aggregate_ratio) / 1_000_000),
            )
            &&& e.world_radius >= min(
                LIMIT as int,
                (20_000 * globals.world_aggregate_ratio) / 1_000_000,
            )
        }),
{
    let w = scenario_start(globals);
    lemma_scenario_start(globals);
    assert(1_000_000 - (98 - 1) * 10_000 == 30_000 && 1_000_000 - 98 * 10_000 == 20_000
        && 1_000_000 - (98 + 1) * 10_000 == 10_000);
    lemma_straight_run(w, 1_000_000, ticks, globals);
    assert(2 * 10_000 * globals.world_aggregate_ratio == 20_000 * globals.world_aggregate_ratio)
        by (nonlinear_arith);
}

} // verus!
