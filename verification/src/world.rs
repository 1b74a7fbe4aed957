//! The mathematical model of the simulation: its state, the transitions
//! that a tick is made of, and what holds across them.

use crate::config::{Globals, MAX_RADIUS};
use crate::geometry::{abs, lemma_rounded_length, max, min, Vector, LIMIT, UNIT};
use crate::grid::{
    lemma_empty_wf, lemma_hit_complete, lemma_hit_sound, lemma_inserted, probe, Extent, Grid,
};
use crate::motion::{lemma_spawned_valid, lemma_stepped_valid, spawned, stepped};
use crate::particle::{
    contact_point, jitter_within, lemma_contact_point, lemma_mutated_within, mutated, overlaps,
    Color, DynamicParticle, StaticParticle, FIELD,
};
use vstd::prelude::*;

verus! {

/// A branch of the aggregate: the line from a frozen particle to the one
/// that froze against it.
#[derive(Clone, Copy, Debug, PartialEq, Eq, Structural)]
pub struct Branch {
    pub start: Vector,
    pub end: Vector,
    pub color: Color,
    /// When the branch came to be, in milliseconds.
    pub born: u64,
}

/// The state of the simulation.
pub struct World {
    /// The moving particles.
    pub active: Seq<DynamicParticle>,
    /// The index of the frozen particles.
    pub grid: Grid,
    /// The branches, oldest first.
    pub branches: Seq<Branch>,
    /// Radius of the boundary that moving particles bounce off.
    pub world_radius: int,
    /// Radius that the view moves toward.
    pub display_radius_target: int,
    /// Radius of the view.
    pub display_radius: int,
}

/// What one tick takes from outside: the turn of each moving particle, the
/// colour jitter of each, the draws that spawning makes, and the time.
pub struct Draws {
    pub turns: Seq<int>,
    pub jitters: Seq<(int, int, int)>,
    pub spawns: Seq<(Vector, int)>,
    pub now: u64,
}

/// The radius `current` after a particle froze at `pos`: at least `ratio`
/// millionths of the distance of `pos` from the origin, never less than
/// before, never more than `LIMIT`.
pub open spec fn grown_radius(current: int, pos: Vector, ratio: int) -> int {
    min(LIMIT as int, max(current, (pos.length() * ratio) / (UNIT as int)))
}

/// The view radius after one camera update: the mean of the radius and its
/// target with weights `smoothness` and `UNIT - smoothness`.
pub open spec fn smoothed(radius: int, target: int, smoothness: int) -> int {
    (radius * smoothness + target * (UNIT - smoothness)) / (UNIT as int)
}

/// There are `n` jitter triples, each within `amount`.
pub open spec fn jitters_within(jitters: Seq<(int, int, int)>, n: int, amount: int) -> bool {
    jitters.len() == n && forall|i: int| 0 <= i < n ==> jitter_within(#[trigger] jitters[i], amount)
}

/// There are `n` turns, each of tangent at most `bound`.
pub open spec fn turns_within(turns: Seq<int>, n: int, bound: int) -> bool {
    turns.len() == n && forall|i: int| 0 <= i < n ==> abs(#[trigger] turns[i]) <= bound
}

/// There are `n` draws of a point in the unit square and a turn of tangent
/// at most `bound`.
pub open spec fn draws_within(draws: Seq<(Vector, int)>, n: int, bound: int) -> bool {
    draws.len() == n && forall|i: int|
        0 <= i < n ==> (#[trigger] draws[i]).0.within(UNIT as int) && abs(draws[i].1) <= bound
}

impl World {
    /// The state is one the simulation can be in: the index satisfies the
    /// bucket invariant, the radii are within limits, and every moving
    /// particle is within limits and at unit speed.
    pub open spec fn wf(self) -> bool {
        &&& self.grid.wf()
        &&& 1 <= self.world_radius <= LIMIT
        &&& 0 <= self.display_radius_target <= LIMIT
        &&& 0 <= self.display_radius <= LIMIT
        &&& forall|i: int| 0 <= i < self.active.len() ==> (#[trigger] self.active[i]).valid()
    }

    /// The state with no moving particles.
    pub open spec fn cleared(self) -> World {
        World {
            active: Seq::empty(),
            grid: self.grid,
            branches: self.branches,
            world_radius: self.world_radius,
            display_radius_target: self.display_radius_target,
            display_radius: self.display_radius,
        }
    }

    /// The state after the particle `fresh` froze against `hit` at time
    /// `now`: `fresh` is in the index, a branch leads from `hit` to it, and
    /// the radii have grown.
    pub open spec fn attached(
        self,
        hit: StaticParticle,
        fresh: StaticParticle,
        globals: Globals,
        now: u64,
    ) -> World {
        World {
            active: self.active,
            grid: self.grid.inserted(
                fresh,
                globals.bin_margin_min as int,
                globals.bin_margin_max as int,
            ),
            branches: self.branches.push(
                Branch { start: hit.pos, end: fresh.pos, color: fresh.color, born: now },
            ),
            world_radius: grown_radius(
                self.world_radius,
                fresh.pos,
                globals.world_aggregate_ratio as int,
            ),
            display_radius_target: grown_radius(
                self.display_radius_target,
                fresh.pos,
                globals.view_aggregate_ratio as int,
            ),
            display_radius: self.display_radius,
        }
    }

    /// The state with `p` among the moving particles.
    pub open spec fn released(self, p: DynamicParticle) -> World {
        World {
            active: self.active.push(p),
            grid: self.grid,
            branches: self.branches,
            world_radius: self.world_radius,
            display_radius_target: self.display_radius_target,
            display_radius: self.display_radius,
        }
    }

    /// The state after the collision test of one particle `p` that is not
    /// among the moving ones: where the index reports a collision with a
    /// particle `hit`, a particle freezes at the contact point, coloured
    /// like `hit` with jitter `j`; else `p` joins the moving particles.
    pub open spec fn settle_one(
        self,
        p: DynamicParticle,
        j: (int, int, int),
        globals: Globals,
        now: u64,
    ) -> World {
        match self.grid.colliding(p.pos, globals.particle_r as int) {
            Some(hit) => self.attached(
                hit,
                StaticParticle {
                    pos: contact_point(p.pos, hit.pos, globals.particle_r as int),
                    color: mutated(hit.color, j.0, j.1, j.2),
                },
                globals,
                now,
            ),
            None => self.released(p),
        }
    }

    /// The state after the collision test of the particles of `pending`,
    /// one after another, particle `i` with jitter `jitters[i]`.
    pub open spec fn settled(
        self,
        pending: Seq<DynamicParticle>,
        jitters: Seq<(int, int, int)>,
        globals: Globals,
        now: u64,
    ) -> World
        decreases pending.len(),
    {
        if pending.len() == 0 {
            self
        } else {
            self.settled(pending.drop_last(), jitters.drop_last(), globals, now).settle_one(
                pending.last(),
                jitters.last(),
                globals,
                now,
            )
        }
    }

    /// The state after every moving particle made one step of length
    /// `step`, particle `i` turning by `turns[i]` if it reached the
    /// boundary.
    pub open spec fn moved_all(self, turns: Seq<int>, step: int) -> World {
        World {
            active: Seq::new(
                self.active.len(),
                |i: int| stepped(self.active[i], self.world_radius, step, turns[i]),
            ),
            grid: self.grid,
            branches: self.branches,
            world_radius: self.world_radius,
            display_radius_target: self.display_radius_target,
            display_radius: self.display_radius,
        }
    }

    /// The state with one particle spawned for each draw.
    pub open spec fn spawned_all(self, draws: Seq<(Vector, int)>) -> World {
        World {
            active: self.active + Seq::new(
                draws.len(),
                |i: int| spawned(self.world_radius, draws[i].0, draws[i].1),
            ),
            grid: self.grid,
            branches: self.branches,
            world_radius: self.world_radius,
            display_radius_target: self.display_radius_target,
            display_radius: self.display_radius,
        }
    }

    /// The state after one camera update.
    pub open spec fn camera_moved(self, smoothness: int) -> World {
        World {
            active: self.active,
            grid: self.grid,
            branches: self.branches,
            world_radius: self.world_radius,
            display_radius_target: self.display_radius_target,
            display_radius: smoothed(
                self.display_radius,
                self.display_radius_target,
                smoothness,
            ),
        }
    }

    /// The state after one tick: every moving particle makes a step, then
    /// each is tested for a collision, then particles are spawned.
    pub open spec fn ticked(
        self,
        turns: Seq<int>,
        jitters: Seq<(int, int, int)>,
        draws: Seq<(Vector, int)>,
        globals: Globals,
        now: u64,
    ) -> World {
        let stepped = self.moved_all(turns, globals.particle_r as int);
        stepped.cleared().settled(stepped.active, jitters, globals, now).spawned_all(draws)
    }

    /// The state after one tick for each entry of `ticks`, in order.
    pub open spec fn ran(self, ticks: Seq<Draws>, globals: Globals) -> World
        decreases ticks.len(),
    {
        if ticks.len() == 0 {
            self
        } else {
            let d = ticks.last();
            self.ran(ticks.drop_last(), globals).ticked(
                d.turns,
                d.jitters,
                d.spawns,
                globals,
                d.now,
            )
        }
    }

    /// The state with `active` for its moving particles.
    pub open spec fn holding(self, active: Seq<DynamicParticle>) -> World {
        World {
            active,
            grid: self.grid,
            branches: self.branches,
            world_radius: self.world_radius,
            display_radius_target: self.display_radius_target,
            display_radius: self.display_radius,
        }
    }

    /// The state that a simulation starts in: no moving particles, one
    /// frozen particle of colour `globals.seed_color` at the origin, a world
    /// of radius one, a view of radius 0.08 moving toward 0.1.
    pub open spec fn initial(globals: Globals) -> World {
        World {
            active: Seq::empty(),
            grid: Grid::empty(globals.bin_count as int).inserted(
                StaticParticle { pos: Vector { x: 0, y: 0 }, color: globals.seed_color },
                globals.bin_margin_min as int,
                globals.bin_margin_max as int,
            ),
            branches: Seq::empty(),
            world_radius: UNIT as int,
            display_radius_target: 100_000,
            display_radius: 80_000,
        }
    }
}

/// The parameters that a collision reads are in range.
pub open spec fn collision_ready(globals: Globals) -> bool {
    &&& 0 <= globals.particle_r <= MAX_RADIUS
    &&& 1 <= globals.bin_margin_max <= LIMIT
}

/// Freezing a particle keeps the state sound, grows neither radius
/// smaller, and leaves a rectangle that contains the former one.
pub proof fn lemma_attached(
    w: World,
    hit: StaticParticle,
    fresh: StaticParticle,
    globals: Globals,
    now: u64,
)
    requires
        w.wf(),
        fresh.pos.within(FIELD as int),
        1 <= globals.bin_margin_max <= LIMIT,
    ensures
        w.attached(hit, fresh, globals, now).wf(),
        w.attached(hit, fresh, globals, now).world_radius >= w.world_radius,
        w.attached(hit, fresh, globals, now).display_radius_target >= w.display_radius_target,
        w.attached(hit, fresh, globals, now).display_radius == w.display_radius,
        w.attached(hit, fresh, globals, now).grid.extent.covers(w.grid.extent),
        w.attached(hit, fresh, globals, now).active == w.active,
{
    lemma_inserted(w.grid, fresh, globals.bin_margin_min as int, globals.bin_margin_max as int);
}

/// A radius that grows for a particle frozen at distance `len` from the
/// origin, up to rounding, is afterwards at least `ratio` millionths of
/// `len - 2`, unless the limit stops it; and it is never less than before.
pub proof fn lemma_grown_radius_reaches(current: int, pos: Vector, ratio: int, len: int)
    requires
        current <= LIMIT,
        pos.has_length(len),
        0 <= len,
        0 <= ratio,
    ensures
        grown_radius(current, pos, ratio) >= current,
        grown_radius(current, pos, ratio) >= min(
            LIMIT as int,
            ((len - 2) * ratio) / (UNIT as int),
        ),
        grown_radius(current, pos, ratio) <= max(current, (len * ratio) / (UNIT as int)),
{
    lemma_rounded_length(pos, len);
    let far = pos.length();
    assert((len - 2) * ratio <= far * ratio <= len * ratio) by (nonlinear_arith)
        requires
            len - 2 <= far <= len,
            0 <= ratio,
    ;
    vstd::arithmetic::div_mod::lemma_div_is_ordered((len - 2) * ratio, far * ratio, UNIT as int);
    vstd::arithmetic::div_mod::lemma_div_is_ordered(far * ratio, len * ratio, UNIT as int);
}

/// The first contact. Where the index holds one particle alone, and a
/// moving particle overlaps it and lies where the query looks (in the cell
/// of that particle, or with a probe point in it), the collision test
/// freezes it: the moving particles are as before, without it; the index
/// holds the one particle and one new one, which is one diameter from it,
/// on the side of the moving particle, coloured like it up to the jitter;
/// and neither radius is smaller than before. Where the one particle is at
/// the origin, the radii are at least their ratios of the diameter less two
/// grid steps, unless the limit stops them.
pub proof fn lemma_first_contact(
    w: World,
    p: DynamicParticle,
    j: (int, int, int),
    globals: Globals,
    now: u64,
    t: int,
)
    requires
        w.wf(),
        p.valid(),
        collision_ready(globals),
        0 <= globals.world_aggregate_ratio,
        0 <= globals.view_aggregate_ratio,
        w.grid.particles.len() == 1,
        overlaps(p.pos, w.grid.particles[0].pos, globals.particle_r as int),
        w.grid.cell(p.pos).is_some(),
        0 <= t < 9,
        w.grid.cell(w.grid.particles[0].pos) == w.grid.cell(
            probe(p.pos, globals.particle_r as int, t),
        ),
    ensures
        ({
            let seed = w.grid.particles[0];
            let radius = globals.particle_r as int;
            let fresh = StaticParticle {
                pos: contact_point(p.pos, seed.pos, radius),
                color: mutated(seed.color, j.0, j.1, j.2),
            };
            let r = w.settle_one(p, j, globals, now);
            &&& w.grid.colliding(p.pos, radius) == Some(seed)
            &&& r == w.attached(seed, fresh, globals, now)
            &&& r.wf()
            &&& r.active == w.active
            &&& r.grid.particles.len() == 2
            &&& r.grid.particles.to_multiset() == w.grid.particles.to_multiset().insert(fresh)
            &&& r.branches == w.branches.push(
                Branch { start: seed.pos, end: fresh.pos, color: fresh.color, born: now },
            )
            &&& fresh.pos.at_distance(seed.pos, 2 * radius)
            &&& radius >= 1 ==> fresh.pos != seed.pos
            &&& p.pos.x >= seed.pos.x ==> fresh.pos.x >= seed.pos.x
            &&& p.pos.x < seed.pos.x ==> fresh.pos.x <= seed.pos.x
            &&& p.pos.y >= seed.pos.y ==> fresh.pos.y >= seed.pos.y
            &&& p.pos.y <= seed.pos.y ==> fresh.pos.y <= seed.pos.y
            &&& jitter_within(j, globals.mutate_amount as int) ==> {
                &&& abs(fresh.color.r - seed.color.r) <= globals.mutate_amount
                &&& abs(fresh.color.g - seed.color.g) <= globals.mutate_amount
                &&& abs(fresh.color.b - seed.color.b) <= globals.mutate_amount
                &&& fresh.color.a == seed.color.a
            }
            &&& r.world_radius >= w.world_radius
            &&& r.display_radius_target >= w.display_radius_target
            &&& seed.pos == (Vector { x: 0, y: 0 }) ==> {
                &&& r.world_radius >= min(
                    LIMIT as int,
                    ((2 * radius - 2) * globals.world_aggregate_ratio) / (UNIT as int),
                )
                &&& r.display_radius_target >= min(
                    LIMIT as int,
                    ((2 * radius - 2) * globals.view_aggregate_ratio) / (UNIT as int),
                )
            }
        }),
{
    let seed = w.grid.particles[0];
    let radius = globals.particle_r as int;
    let fresh = StaticParticle {
        pos: contact_point(p.pos, seed.pos, radius),
        color: mutated(seed.color, j.0, j.1, j.2),
    };
    lemma_hit_complete(w.grid, p.pos, radius, 0, t);
    lemma_hit_sound(w.grid, p.pos, radius);
    assert(w.grid.hit_index(p.pos, radius) == Some(0int));
    assert(seed.pos.within(FIELD as int));
    lemma_contact_point(p.pos, seed.pos, radius);
    lemma_attached(w, seed, fresh, globals, now);
    lemma_inserted(w.grid, fresh, globals.bin_margin_min as int, globals.bin_margin_max as int);
    if jitter_within(j, globals.mutate_amount as int) {
        lemma_mutated_within(seed.color, j, globals.mutate_amount as int);
    }
    if seed.pos == (Vector { x: 0, y: 0 }) {
        assert(fresh.pos.has_length(2 * radius));
        lemma_grown_radius_reaches(
            w.world_radius,
            fresh.pos,
            globals.world_aggregate_ratio as int,
            2 * radius,
        );
        lemma_grown_radius_reaches(
            w.display_radius_target,
            fresh.pos,
            globals.view_aggregate_ratio as int,
            2 * radius,
        );
    }
}

/// The collision test of one particle keeps the state sound, grows
/// neither the world radius nor the view target smaller, and never shrinks
/// the indexed rectangle.
pub proof fn lemma_settle_one(
    w: World,
    p: DynamicParticle,
    j: (int, int, int),
    globals: Globals,
    now: u64,
)
    requires
        w.wf(),
        p.valid(),
        collision_ready(globals),
    ensures
        w.settle_one(p, j, globals, now).wf(),
        w.settle_one(p, j, globals, now).world_radius >= w.world_radius,
        w.settle_one(p, j, globals, now).display_radius_target >= w.display_radius_target,
        w.settle_one(p, j, globals, now).display_radius == w.display_radius,
        w.settle_one(p, j, globals, now).grid.extent.covers(w.grid.extent),
{
    let radius = globals.particle_r as int;
    match w.grid.colliding(p.pos, radius) {
        Some(hit) => {
            lemma_hit_sound(w.grid, p.pos, radius);
            let i = w.grid.hit_index(p.pos, radius).unwrap();
            assert(w.grid.particles[i].pos.within(FIELD as int));
            lemma_contact_point(p.pos, hit.pos, radius);
            let fresh = StaticParticle {
                pos: contact_point(p.pos, hit.pos, radius),
                color: mutated(hit.color, j.0, j.1, j.2),
            };
            lemma_attached(w, hit, fresh, globals, now);
        },
        None => {
            let r = w.released(p);
            assert forall|i: int| 0 <= i < r.active.len() implies (#[trigger] r.active[i]).valid() by {
                if i < w.active.len() {
                    assert(r.active[i] == w.active[i]);
                }
            }
        },
    }
}

/// Across the collision tests of any particles, with any colour jitters,
/// the state stays sound, the world radius and the view target never
/// shrink, the view radius is untouched, and the indexed rectangle only
/// grows.
pub proof fn lemma_settled(
    w: World,
    pending: Seq<DynamicParticle>,
    jitters: Seq<(int, int, int)>,
    globals: Globals,
    now: u64,
)
    requires
        w.wf(),
        forall|i: int| 0 <= i < pending.len() ==> (#[trigger] pending[i]).valid(),
        collision_ready(globals),
    ensures
        w.settled(pending, jitters, globals, now).wf(),
        w.settled(pending, jitters, globals, now).world_radius >= w.world_radius,
        w.settled(pending, jitters, globals, now).display_radius_target
            >= w.display_radius_target,
        w.settled(pending, jitters, globals, now).display_radius == w.display_radius,
        w.settled(pending, jitters, globals, now).grid.extent.covers(w.grid.extent),
    decreases pending.len(),
{
    if pending.len() > 0 {
        let head = pending.drop_last();
        assert forall|i: int| 0 <= i < head.len() implies (#[trigger] head[i]).valid() by {
            assert(head[i] == pending[i]);
        }
        lemma_settled(w, head, jitters.drop_last(), globals, now);
        assert(pending.last() == pending[pending.len() - 1]);
        lemma_settle_one(
            w.settled(head, jitters.drop_last(), globals, now),
            pending.last(),
            jitters.last(),
            globals,
            now,
        );
    }
}

/// A state without its moving particles is sound where the state is.
pub proof fn lemma_cleared(w: World)
    requires
        w.wf(),
    ensures
        w.cleared().wf(),
{
}

/// One step of every moving particle keeps the state sound and changes
/// nothing but the moving particles.
pub proof fn lemma_moved_all(w: World, turns: Seq<int>, step: int)
    requires
        w.wf(),
        0 <= step <= MAX_RADIUS,
    ensures
        w.moved_all(turns, step).wf(),
        w.moved_all(turns, step).world_radius == w.world_radius,
        w.moved_all(turns, step).display_radius_target == w.display_radius_target,
        w.moved_all(turns, step).grid == w.grid,
        w.moved_all(turns, step).active.len() == w.active.len(),
{
    let r = w.moved_all(turns, step);
    assert forall|i: int| 0 <= i < r.active.len() implies (#[trigger] r.active[i]).valid() by {
        assert(w.active[i].valid());
        lemma_stepped_valid(w.active[i], w.world_radius, step, turns[i]);
    }
}

/// Spawning keeps the state sound and changes nothing but the moving
/// particles, which it only adds to.
pub proof fn lemma_spawned_all(w: World, draws: Seq<(Vector, int)>)
    requires
        w.wf(),
        forall|i: int| 0 <= i < draws.len() ==> (#[trigger] draws[i]).0.within(UNIT as int),
    ensures
        w.spawned_all(draws).wf(),
        w.spawned_all(draws).world_radius == w.world_radius,
        w.spawned_all(draws).display_radius_target == w.display_radius_target,
        w.spawned_all(draws).grid == w.grid,
        w.spawned_all(draws).active.len() == w.active.len() + draws.len(),
{
    let r = w.spawned_all(draws);
    assert forall|i: int| 0 <= i < r.active.len() implies (#[trigger] r.active[i]).valid() by {
        if i < w.active.len() {
            assert(r.active[i] == w.active[i]);
        } else {
            let k = i - w.active.len();
            assert(draws[k].0.within(UNIT as int));
            lemma_spawned_valid(w.world_radius, draws[k].0, draws[k].1);
        }
    }
}

/// Across a tick, whatever the random draws, the state stays sound, the
/// world radius and the view target never shrink, and the indexed rectangle
/// only grows.
pub proof fn lemma_ticked(
    w: World,
    turns: Seq<int>,
    jitters: Seq<(int, int, int)>,
    draws: Seq<(Vector, int)>,
    globals: Globals,
    now: u64,
)
    requires
        w.wf(),
        collision_ready(globals),
        forall|i: int| 0 <= i < draws.len() ==> (#[trigger] draws[i]).0.within(UNIT as int),
    ensures
        w.ticked(turns, jitters, draws, globals, now).wf(),
        w.ticked(turns, jitters, draws, globals, now).world_radius >= w.world_radius,
        w.ticked(turns, jitters, draws, globals, now).display_radius_target
            >= w.display_radius_target,
        w.ticked(turns, jitters, draws, globals, now).display_radius == w.display_radius,
        w.ticked(turns, jitters, draws, globals, now).grid.extent.covers(w.grid.extent),
{
    let stepped = w.moved_all(turns, globals.particle_r as int);
    lemma_moved_all(w, turns, globals.particle_r as int);
    lemma_cleared(stepped);
    lemma_settled(stepped.cleared(), stepped.active, jitters, globals, now);
    lemma_spawned_all(stepped.cleared().settled(stepped.active, jitters, globals, now), draws);
}

/// Every spawn draw of every tick is a point of the unit square.
pub open spec fn spawns_in_square(ticks: Seq<Draws>) -> bool {
    forall|k: int, i: int|
        0 <= k < ticks.len() && 0 <= i < ticks[k].spawns.len() ==> (
        #[trigger] ticks[k].spawns[i]).0.within(UNIT as int)
}

/// Across any number of ticks, whatever the random draws, the state stays
/// sound, the world radius and the view target never shrink, and the
/// indexed rectangle only grows.
pub proof fn lemma_ran(w: World, ticks: Seq<Draws>, globals: Globals)
    requires
        w.wf(),
        collision_ready(globals),
        spawns_in_square(ticks),
    ensures
        w.ran(ticks, globals).wf(),
        w.ran(ticks, globals).world_radius >= w.world_radius,
        w.ran(ticks, globals).display_radius_target >= w.display_radius_target,
        w.ran(ticks, globals).display_radius == w.display_radius,
        w.ran(ticks, globals).grid.extent.covers(w.grid.extent),
    decreases ticks.len(),
{
    if ticks.len() > 0 {
        let head = ticks.drop_last();
        let d = ticks.last();
        assert(spawns_in_square(head)) by {
            assert forall|k: int, i: int|
                0 <= k < head.len() && 0 <= i < head[k].spawns.len() implies (
            #[trigger] head[k].spawns[i]).0.within(UNIT as int) by {
                assert(head[k] == ticks[k]);
                assert(ticks[k].spawns[i].0.within(UNIT as int));
            }
        }
        lemma_ran(w, head, globals);
        assert forall|i: int| 0 <= i < d.spawns.len() implies (#[trigger] d.spawns[i]).0.within(
            UNIT as int,
        ) by {
            assert(d == ticks[ticks.len() - 1]);
            assert(ticks[ticks.len() - 1].spawns[i].0.within(UNIT as int));
        }
        lemma_ticked(w.ran(head, globals), d.turns, d.jitters, d.spawns, globals, d.now);
    }
}

/// A camera update keeps the state sound, moves the view radius to a
/// value between itself and its target, and changes nothing else.
pub proof fn lemma_camera_moved(w: World, smoothness: int)
    requires
        w.wf(),
        0 <= smoothness <= UNIT,
    ensures
        w.camera_moved(smoothness).wf(),
        w.camera_moved(smoothness).world_radius == w.world_radius,
        w.camera_moved(smoothness).display_radius_target == w.display_radius_target,
        min(w.display_radius, w.display_radius_target) <= w.camera_moved(
            smoothness,
        ).display_radius <= max(w.display_radius, w.display_radius_target),
{
    let radius = w.display_radius;
    let target = w.display_radius_target;
    let lo = min(radius, target);
    let hi = max(radius, target);
    let sum = radius * smoothness + target * (UNIT - smoothness);
    assert(lo * UNIT <= sum <= hi * UNIT) by (nonlinear_arith)
        requires
            sum == radius * smoothness + target * (UNIT - smoothness),
            0 <= smoothness <= UNIT,
            lo <= radius <= hi,
            lo <= target <= hi,
    ;
    assert(lo <= sum / (UNIT as int) <= hi) by (nonlinear_arith)
        requires
            lo * UNIT <= sum <= hi * UNIT,
            UNIT == 1_000_000,
    ;
}

/// The initial state is sound and holds the seed alone.
pub proof fn lemma_initial(globals: Globals)
    requires
        1 <= globals.bin_count <= crate::config::MAX_BIN_COUNT,
        1 <= globals.bin_margin_max <= LIMIT,
    ensures
        World::initial(globals).wf(),
        World::initial(globals).grid.particles.len() == 1,
        World::initial(globals).grid.particles[0] == (StaticParticle {
            pos: Vector { x: 0, y: 0 },
            color: globals.seed_color,
        }),
        World::initial(globals).grid.count == globals.bin_count,
        World::initial(globals).grid.extent == (Extent {
            xmin: (-globals.bin_margin_max) as i64,
            xmax: globals.bin_margin_max,
            ymin: (-globals.bin_margin_max) as i64,
            ymax: globals.bin_margin_max,
        }),
{
    let seed = StaticParticle { pos: Vector { x: 0, y: 0 }, color: globals.seed_color };
    let empty = Grid::empty(globals.bin_count as int);
    lemma_empty_wf(globals.bin_count as int);
    lemma_inserted(empty, seed, globals.bin_margin_min as int, globals.bin_margin_max as int);
    let g = World::initial(globals).grid;
    assert(g.particles.to_multiset().count(seed) > 0) by {
        broadcast use vstd::multiset::group_multiset_axioms;

        empty.particles.to_multiset_ensures();
    }
    g.particles.to_multiset_ensures();
    assert(g.particles.contains(seed));
}

} // verus!
