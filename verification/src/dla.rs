//! The simulation: particles walk at random inside a circular world,
//! freeze where they touch the aggregate, and the world and the view grow
//! with it.

use crate::bins::Bins;
use crate::config::{Globals, MAX_BIN_COUNT, MAX_RADIUS};
use crate::geometry::{max, min, Vector, LIMIT, SPAN, UNIT};
use crate::motion::{spawned, stepped};
use crate::particle::{jitter_within, mutated, DynamicParticle, StaticParticle, FIELD};
use crate::world::{
    draws_within, grown_radius, jitters_within, smoothed, turns_within, Branch, World,
};
use crate::rng::gen_range;
use vstd::prelude::*;

verus! {

/// Largest tangent, in millionths, of the turn after a reflection.
pub const BOUNCE_TURN: i32 = 500_000;

/// Largest tangent, in millionths, of the angle between the velocity of a
/// spawned particle and the inward direction: that of 0.8 radians.
pub const SPAWN_TURN: i32 = 1_029_639;

/// Draws of a point that spawning makes before it takes one outside the
/// unit disk.
pub const SPAWN_TRIES: usize = 8;

/// The radius `current` after a particle froze at `pos`.
pub fn grow_radius(current: i64, pos: Vector, ratio: i64) -> (r: i64)
    requires
        0 <= current <= LIMIT,
        pos.within(SPAN as int),
        0 <= ratio <= LIMIT,
    ensures
        r == grown_radius(current as int, pos, ratio as int),
        current <= r <= LIMIT,
{
    let far: i64 = pos.floor_length();
    let reach: u128 = far as u128;
    let scale: u128 = ratio as u128;
    assert(reach * scale <= 0x2_0000_0000 * 0x4000_0000) by (nonlinear_arith)
        requires
            reach <= 0x2_0000_0000,
            scale <= 0x4000_0000,
    ;
    let wanted: u128 = reach * scale / (UNIT as u128);
    if wanted >= LIMIT as u128 {
        LIMIT
    } else if wanted > current as u128 {
        wanted as i64
    } else {
        current
    }
}

/// The view radius after one camera update.
pub fn smooth(radius: i64, target: i64, smoothness: i64) -> (r: i64)
    requires
        0 <= radius <= LIMIT,
        0 <= target <= LIMIT,
        0 <= smoothness <= UNIT,
    ensures
        r == smoothed(radius as int, target as int, smoothness as int),
        min(radius as int, target as int) <= r <= max(radius as int, target as int),
{
    let keep: i64 = smoothness;
    let take: i64 = UNIT - smoothness;
    assert(0 <= radius * keep <= LIMIT * keep && 0 <= target * take <= LIMIT * take)
        by (nonlinear_arith)
        requires
            0 <= radius <= LIMIT,
            0 <= target <= LIMIT,
            0 <= keep,
            0 <= take,
    ;
    let sum: i64 = radius * keep + target * take;
    let ghost lo = min(radius as int, target as int);
    let ghost hi = max(radius as int, target as int);
    assert(lo * UNIT <= sum <= hi * UNIT) by (nonlinear_arith)
        requires
            sum == radius * keep + target * take,
            keep + take == UNIT,
            0 <= keep,
            0 <= take,
            lo <= radius <= hi,
            lo <= target <= hi,
    ;
    let r: u64 = (sum as u64) / (UNIT as u64);
    assert(lo <= r <= hi) by (nonlinear_arith)
        requires
            r == (sum as int) / (UNIT as int),
            lo * UNIT <= sum <= hi * UNIT,
            UNIT == 1_000_000,
    ;
    r as i64
}

/// A simulation.
pub struct DLA {
    dynamic: Vec<DynamicParticle>,
    bins: Bins,
    lines: Vec<Branch>,
    world_radius: i64,
    display_radius_target: i64,
    display_radius: i64,
}

impl View for DLA {
    type V = World;

    /// The state of the simulation.
    closed spec fn view(&self) -> World {
        World {
            active: self.dynamic@,
            grid: self.bins@,
            branches: self.lines@,
            world_radius: self.world_radius as int,
            display_radius_target: self.display_radius_target as int,
            display_radius: self.display_radius as int,
        }
    }
}

impl DLA {
    /// The state is one the simulation can be in.
    pub open spec fn wf(self) -> bool {
        self@.wf()
    }

    /// A simulation in its initial state.
    pub fn new(globals: &Globals) -> (r: DLA)
        requires
            1 <= globals.bin_count <= MAX_BIN_COUNT,
            -LIMIT <= globals.bin_margin_min <= LIMIT,
            1 <= globals.bin_margin_max <= LIMIT,
        ensures
            r.wf(),
            r@ == World::initial(*globals),
    {
        let mut bins = Bins::new(globals);
        bins.insert(
            StaticParticle { pos: Vector { x: 0, y: 0 }, color: globals.seed_color },
            globals,
        );
        DLA {
            dynamic: Vec::new(),
            bins,
            lines: Vec::new(),
            world_radius: UNIT,
            display_radius_target: 100_000,
            display_radius: 80_000,
        }
    }

    /// Moves the view radius toward its target and returns it.
    pub fn update_camera(&mut self, globals: &Globals) -> (r: i64)
        requires
            old(self).wf(),
            0 <= globals.zoom_smoothness <= UNIT,
        ensures
            final(self).wf(),
            final(self)@ == old(self)@.camera_moved(globals.zoom_smoothness as int),
            r == final(self)@.display_radius,
    {
        self.display_radius = smooth(
            self.display_radius,
            self.display_radius_target,
            globals.zoom_smoothness,
        );
        proof {
            assert(0 <= self.display_radius <= LIMIT);
            assert(self@.active == old(self)@.active);
            assert(self@.grid == old(self)@.grid);
            assert(self@.wf());
        }
        self.display_radius
    }

    /// The moving particles.
    pub fn dynamic(&self) -> (r: &Vec<DynamicParticle>)
        ensures
            r@ == self@.active,
    {
        &self.dynamic
    }

    /// The index of the frozen particles.
    pub fn bins(&self) -> (r: &Bins)
        ensures
            r@ == self@.grid,
    {
        &self.bins
    }

    /// The branches, oldest first.
    pub fn lines(&self) -> (r: &Vec<Branch>)
        ensures
            r@ == self@.branches,
    {
        &self.lines
    }

    /// Radius of the boundary that moving particles bounce off.
    pub fn world_radius(&self) -> (r: i64)
        ensures
            r == self@.world_radius,
    {
        self.world_radius
    }

    /// Radius that the view moves toward.
    pub fn display_radius_target(&self) -> (r: i64)
        ensures
            r == self@.display_radius_target,
    {
        self.display_radius_target
    }

    /// Radius of the view.
    pub fn display_radius(&self) -> (r: i64)
        ensures
            r == self@.display_radius,
    {
        self.display_radius
    }

    /// Adds a moving particle.
    pub fn release(&mut self, p: DynamicParticle)
        requires
            old(self).wf(),
            p.valid(),
        ensures
            final(self).wf(),
            final(self)@ == old(self)@.released(p),
    {
        self.dynamic.push(p);
        proof {
            assert forall|i: int| 0 <= i < self@.active.len() implies (
            #[trigger] self@.active[i]).valid() by {
                if i < old(self)@.active.len() {
                    assert(self@.active[i] == old(self)@.active[i]);
                }
            }
        }
    }
}

/// `a` lies in the unit disk and is not its centre.
pub open spec fn in_disk(a: Vector) -> bool {
    0 < a.norm_sq() <= UNIT * UNIT
}

/// `draws` is a run of rejection sampling: between one and `SPAWN_TRIES`
/// points of the unit square, every one but the last outside the unit disk
/// or at its centre, and the last one inside unless the tries ran out.
pub open spec fn rejection_run(draws: Seq<Vector>) -> bool {
    &&& 1 <= draws.len() <= SPAWN_TRIES
    &&& forall|i: int| 0 <= i < draws.len() ==> (#[trigger] draws[i]).within(UNIT as int)
    &&& forall|i: int| 0 <= i < draws.len() - 1 ==> !in_disk(#[trigger] draws[i])
    &&& draws.len() < SPAWN_TRIES ==> in_disk(draws.last())
}

/// Whether `a` lies in the unit disk and is not its centre.
pub fn in_unit_disk(a: Vector) -> (r: bool)
    requires
        a.within(UNIT as int),
    ensures
        r == in_disk(a),
{
    let n: u128 = a.length_squared();
    0 < n && n <= 1_000_000_000_000
}

/// Draws a point of the unit square, again while it falls outside the
/// unit disk or on its centre, up to `SPAWN_TRIES` draws in all, and
/// returns the last one drawn: the first draw inside the disk, or the last
/// draw where none was inside.
pub fn draw_point() -> (a: Vector)
    ensures
        a.within(UNIT as int),
        exists|draws: Seq<Vector>| #[trigger] rejection_run(draws) && a == draws.last(),
{
    let side: i32 = 1_000_000;
    let mut a = Vector { x: gen_range(-side, side) as i64, y: gen_range(-side, side) as i64 };
    let ghost draws: Seq<Vector> = seq![a];
    let mut tries: usize = 1;
    while tries < SPAWN_TRIES && !in_unit_disk(a)
        invariant
            a.within(UNIT as int),
            side == 1_000_000,
            1 <= tries <= SPAWN_TRIES,
            draws.len() == tries,
            a == draws.last(),
            forall|i: int| 0 <= i < draws.len() ==> (#[trigger] draws[i]).within(UNIT as int),
            forall|i: int| 0 <= i < draws.len() - 1 ==> !in_disk(#[trigger] draws[i]),
        ensures
            tries < SPAWN_TRIES ==> in_disk(a),
        decreases SPAWN_TRIES - tries,
    {
        let ghost earlier = draws;
        a = Vector { x: gen_range(-side, side) as i64, y: gen_range(-side, side) as i64 };
        proof {
            draws = earlier.push(a);
            assert forall|i: int| 0 <= i < draws.len() - 1 implies !in_disk(
                #[trigger] draws[i],
            ) by {
                assert(draws[i] == earlier[i]);
            }
        }
        tries += 1;
    }
    proof {
        assert(rejection_run(draws) && a == draws.last());
    }
    a
}

impl DLA {
    /// Moves every moving particle one step of the length of a particle
    /// radius. A particle whose step takes it beyond the boundary of the
    /// world is put back onto it, its velocity mirrored in the boundary and
    /// then turned by a random angle of tangent at most one half. A particle
    /// whose step ends on the boundary or inside it keeps its velocity, and
    /// no random number is drawn for it.
    pub fn kinematic_update(&mut self, globals: &Globals)
        requires
            old(self).wf(),
            0 <= globals.particle_r <= MAX_RADIUS,
        ensures
            final(self).wf(),
            exists|turns: Seq<int>| #[trigger]
                turns_within(turns, old(self)@.active.len() as int, BOUNCE_TURN as int)
                    && final(self)@ == old(self)@.moved_all(turns, globals.particle_r as int),
            final(self)@.active.len() == old(self)@.active.len(),
            final(self)@.grid == old(self)@.grid,
            final(self)@.world_radius == old(self)@.world_radius,
            final(self)@.display_radius_target == old(self)@.display_radius_target,
            final(self)@.display_radius == old(self)@.display_radius,
    {
        let n: usize = self.dynamic.len();
        let step: i64 = globals.particle_r;
        let radius: i64 = self.world_radius;
        let ghost before = self.dynamic@;
        let ghost turns: Seq<int> = Seq::empty();
        proof {
            assert forall|k: int| 0 <= k < n implies (#[trigger] self.dynamic[k]).valid() by {
                assert(self@.active[k].valid());
            }
        }
        let mut i: usize = 0;
        while i < n
            invariant
                i <= n,
                n == self.dynamic.len(),
                n == before.len(),
                self.bins == old(self).bins,
                self.lines == old(self).lines,
                self.world_radius == old(self).world_radius,
                self.display_radius_target == old(self).display_radius_target,
                self.display_radius == old(self).display_radius,
                radius == self.world_radius,
                1 <= radius <= LIMIT,
                step == globals.particle_r,
                0 <= step <= MAX_RADIUS,
                turns_within(turns, i as int, BOUNCE_TURN as int),
                forall|k: int|
                    0 <= k < i ==> #[trigger] self.dynamic[k] == stepped(
                        before[k],
                        radius as int,
                        step as int,
                        turns[k],
                    ),
                forall|k: int| i <= k < n ==> #[trigger] self.dynamic[k] == before[k],
                forall|k: int| 0 <= k < n ==> (#[trigger] self.dynamic[k]).valid(),
            decreases n - i,
        {
            let p: DynamicParticle = self.dynamic[i];
            let t: i32 = if DynamicParticle::leaves_world(p.advanced(step), radius) {
                gen_range(-BOUNCE_TURN, BOUNCE_TURN)
            } else {
                0
            };
            let q: DynamicParticle = p.stepped_with(radius, step, t as i64);
            self.dynamic.set(i, q);
            proof {
                turns = turns.push(t as int);
            }
            i += 1;
        }
        proof {
            assert(self@.active =~= old(self)@.moved_all(turns, step as int).active);
            assert(turns_within(turns, n as int, BOUNCE_TURN as int));
        }
    }

    /// Spawns moving particles until there are `globals.dynamic_target` of
    /// them: each on the boundary of the world in a random direction,
    /// heading inward, turned away from the centre by a random angle of
    /// at most 0.8 radians.
    pub fn spawn(&mut self, globals: &Globals)
        requires
            old(self).wf(),
        ensures
            final(self).wf(),
            final(self)@.active.len() == max(
                old(self)@.active.len() as int,
                globals.dynamic_target as int,
            ),
            exists|draws: Seq<(Vector, int)>| #[trigger]
                draws_within(
                    draws,
                    final(self)@.active.len() - old(self)@.active.len(),
                    SPAWN_TURN as int,
                ) && final(self)@ == old(self)@.spawned_all(draws),
            final(self)@.grid == old(self)@.grid,
            final(self)@.world_radius == old(self)@.world_radius,
            final(self)@.display_radius_target == old(self)@.display_radius_target,
            final(self)@.display_radius == old(self)@.display_radius,
    {
        let target: usize = globals.dynamic_target;
        let radius: i64 = self.world_radius;
        let ghost before = self.dynamic@;
        let ghost draws: Seq<(Vector, int)> = Seq::empty();
        proof {
            assert forall|k: int| 0 <= k < self.dynamic.len() implies (
            #[trigger] self.dynamic[k]).valid() by {
                assert(self@.active[k].valid());
            }
            assert(self.dynamic@ =~= before + Seq::new(
                draws.len(),
                |i: int| spawned(radius as int, draws[i].0, draws[i].1),
            ));
        }
        while self.dynamic.len() < target
            invariant
                self.bins == old(self).bins,
                self.lines == old(self).lines,
                self.world_radius == old(self).world_radius,
                self.display_radius_target == old(self).display_radius_target,
                self.display_radius == old(self).display_radius,
                radius == self.world_radius,
                1 <= radius <= LIMIT,
                before == old(self)@.active,
                self.dynamic.len() == before.len() + draws.len(),
                draws.len() == 0 || self.dynamic.len() <= target,
                draws_within(draws, draws.len() as int, SPAWN_TURN as int),
                self.dynamic@ == before + Seq::new(
                    draws.len(),
                    |i: int| spawned(radius as int, draws[i].0, draws[i].1),
                ),
                forall|k: int| 0 <= k < self.dynamic.len() ==> (#[trigger] self.dynamic[k]).valid(),
            decreases target - self.dynamic.len(),
        {
            let a: Vector = draw_point();
            let t: i32 = gen_range(-SPAWN_TURN, SPAWN_TURN);
            let q: DynamicParticle = DynamicParticle::spawned_with(radius, a, t as i64);
            let ghost earlier = draws;
            self.dynamic.push(q);
            proof {
                draws = draws.push((a, t as int));
                assert(self.dynamic@ =~= before + Seq::new(
                    draws.len(),
                    |i: int| spawned(radius as int, draws[i].0, draws[i].1),
                )) by {
                    assert forall|i: int| 0 <= i < earlier.len() implies draws[i] == earlier[i] by {}
                }
            }
        }
        proof {
            assert(draws_within(
                draws,
                self@.active.len() - old(self)@.active.len(),
                SPAWN_TURN as int,
            ));
            assert(self@ == old(self)@.spawned_all(draws));
        }
    }

    /// Freezes the particle `fresh` against `hit`: `fresh` goes into the
    /// index, a branch from `hit` to it is recorded as born at `now`, and
    /// the world and the view target grow to their ratios of the distance of
    /// `fresh` from the origin, where that is more than they are.
    pub fn freeze(
        &mut self,
        hit: &StaticParticle,
        fresh: StaticParticle,
        globals: &Globals,
        now: u64,
    )
        requires
            old(self).wf(),
            fresh.pos.within(FIELD as int),
            -LIMIT <= globals.bin_margin_min <= LIMIT,
            1 <= globals.bin_margin_max <= LIMIT,
            0 <= globals.world_aggregate_ratio <= LIMIT,
            0 <= globals.view_aggregate_ratio <= LIMIT,
        ensures
            final(self).wf(),
            final(self)@ == old(self)@.attached(*hit, fresh, *globals, now),
            final(self)@.world_radius >= old(self)@.world_radius,
            final(self)@.display_radius_target >= old(self)@.display_radius_target,
            final(self)@.grid.extent.covers(old(self)@.grid.extent),
    {
        self.bins.insert(fresh, globals);
        self.lines.push(Branch { start: hit.pos, end: fresh.pos, color: fresh.color, born: now });
        self.world_radius = grow_radius(
            self.world_radius,
            fresh.pos,
            globals.world_aggregate_ratio,
        );
        self.display_radius_target = grow_radius(
            self.display_radius_target,
            fresh.pos,
            globals.view_aggregate_ratio,
        );
        proof {
            assert(self@.active == old(self)@.active);
        }
    }

    /// Tests every moving particle, in order, for a collision with the
    /// aggregate as it then is. A particle that collides is removed, and a
    /// particle freezes in its place at the contact point, its colour that
    /// of the particle it touched moved at random by at most
    /// `globals.mutate_amount` per channel; the world and the view target
    /// grow with it. `now` is the time that new branches are born at.
    pub fn collide(&mut self, globals: &Globals, now: u64)
        requires
            old(self).wf(),
            0 <= globals.particle_r <= MAX_RADIUS,
            -LIMIT <= globals.bin_margin_min <= LIMIT,
            1 <= globals.bin_margin_max <= LIMIT,
            0 <= globals.world_aggregate_ratio <= LIMIT,
            0 <= globals.view_aggregate_ratio <= LIMIT,
        ensures
            final(self).wf(),
            exists|jitters: Seq<(int, int, int)>| #[trigger]
                jitters_within(
                    jitters,
                    old(self)@.active.len() as int,
                    globals.mutate_amount as int,
                ) && final(self)@ == old(self)@.cleared().settled(
                    old(self)@.active,
                    jitters,
                    *globals,
                    now,
                ),
            final(self)@.world_radius >= old(self)@.world_radius,
            final(self)@.display_radius_target >= old(self)@.display_radius_target,
            final(self)@.display_radius == old(self)@.display_radius,
            final(self)@.grid.extent.covers(old(self)@.grid.extent),
    {
        let n: usize = self.dynamic.len();
        let ghost start = self@.cleared();
        let ghost first = self@;
        let mut pending: Vec<DynamicParticle> = Vec::new();
        std::mem::swap(&mut pending, &mut self.dynamic);
        let ghost jitters: Seq<(int, int, int)> = Seq::empty();
        assert(self@ == start);
        assert(pending@.take(0) =~= Seq::<DynamicParticle>::empty());
        let mut i: usize = 0;
        while i < n
            invariant
                i <= n,
                n == pending.len(),
                pending@ == first.active,
                first.wf(),
                self.wf(),
                0 <= globals.particle_r <= MAX_RADIUS,
                -LIMIT <= globals.bin_margin_min <= LIMIT,
                1 <= globals.bin_margin_max <= LIMIT,
                0 <= globals.world_aggregate_ratio <= LIMIT,
                0 <= globals.view_aggregate_ratio <= LIMIT,
                jitters_within(jitters, i as int, globals.mutate_amount as int),
                self@ == start.settled(pending@.take(i as int), jitters, *globals, now),
                self@.world_radius >= first.world_radius,
                self@.display_radius_target >= first.display_radius_target,
                self@.display_radius == first.display_radius,
                self@.grid.extent.covers(first.grid.extent),
            decreases n - i,
        {
            let p: DynamicParticle = pending[i];
            assert(first.active[i as int].valid());
            let ghost held = self@;
            let ghost j: (int, int, int) = (0, 0, 0);
            match self.bins.get_colliding(&p, globals) {
                Some(hit) => {
                    let fresh: StaticParticle = p.to_static(&hit, globals);
                    proof {
                        j = choose|j: (int, int, int)| #[trigger]
                            jitter_within(j, globals.mutate_amount as int) && fresh.color
                                == mutated(hit.color, j.0, j.1, j.2);
                    }
                    self.freeze(&hit, fresh, globals, now);
                },
                None => {
                    self.release(p);
                },
            }
            proof {
                let ghost next = pending@.take(i as int + 1);
                let ghost more = jitters.push(j);
                assert(next.drop_last() =~= pending@.take(i as int));
                assert(next.last() == p);
                assert(more.drop_last() =~= jitters);
                assert(more.last() == j);
                assert(self@ == held.settle_one(p, j, *globals, now));
                assert(start.settled(next, more, *globals, now) == held.settle_one(
                    p,
                    j,
                    *globals,
                    now,
                ));
                jitters = more;
            }
            i += 1;
        }
        proof {
            assert(pending@.take(n as int) =~= pending@);
        }
    }
}

} // verus!
