//! The tunable parameters, passed explicitly to every operation that reads
//! them. Lengths are in grid steps, ratios and fractions in millionths.

use crate::geometry::{LIMIT, UNIT};
use crate::particle::Color;
use vstd::prelude::*;

verus! {

/// Largest particle radius, in grid steps.
pub const MAX_RADIUS: i64 = 268_435_456;

/// Largest number of grid cells along one axis.
pub const MAX_BIN_COUNT: usize = 1024;

/// The parameter bundle of the simulation.
#[derive(Clone, Copy, Debug)]
pub struct Globals {
    /// Colour of the particle the aggregate grows from.
    pub seed_color: Color,
    /// Width of a drawn branch, in millionths of a pixel.
    pub branch_thickness: i64,
    /// Largest change of a colour channel from a particle to the next.
    pub mutate_amount: u16,
    /// Number of moving particles that spawning fills up to.
    pub dynamic_target: usize,
    /// Weight of the old view radius in one camera update, in millionths.
    pub zoom_smoothness: i64,
    /// World radius over aggregate radius, in millionths.
    pub world_aggregate_ratio: i64,
    /// View radius over aggregate radius, in millionths.
    pub view_aggregate_ratio: i64,
    /// Particle radius, which is also the length of one step.
    pub particle_r: i64,
    /// Time a branch takes to grow on screen, in milliseconds.
    pub grow_duration: i64,
    /// Grid cells along one axis of the index.
    pub bin_count: usize,
    /// Distance from the grid's edge below which an insertion regrids.
    pub bin_margin_min: i64,
    /// Distance that regridding leaves between the particle and the edge.
    pub bin_margin_max: i64,
    /// Simulation ticks per drawn frame.
    pub iters_per_frame: u16,
    /// Whether ticks advance.
    pub is_playing: bool,
}

impl Globals {
    /// The parameters are in the ranges the simulation works on.
    pub open spec fn valid(self) -> bool {
        &&& 1 <= self.particle_r <= MAX_RADIUS
        &&& 0 <= self.bin_margin_min <= self.bin_margin_max
        &&& 1 <= self.bin_margin_max <= LIMIT
        &&& 1 <= self.bin_count <= MAX_BIN_COUNT
        &&& 0 <= self.zoom_smoothness <= UNIT
        &&& 0 <= self.world_aggregate_ratio <= LIMIT
        &&& 0 <= self.view_aggregate_ratio <= LIMIT
    }

    /// Tests `valid`.
    pub fn is_valid(&self) -> (r: bool)
        ensures
            r == self.valid(),
    {
        1 <= self.particle_r && self.particle_r <= MAX_RADIUS && 0 <= self.bin_margin_min
            && self.bin_margin_min <= self.bin_margin_max && 1 <= self.bin_margin_max
            && self.bin_margin_max <= LIMIT && 1 <= self.bin_count && self.bin_count
            <= MAX_BIN_COUNT && 0 <= self.zoom_smoothness && self.zoom_smoothness <= UNIT && 0
            <= self.world_aggregate_ratio && self.world_aggregate_ratio <= LIMIT && 0
            <= self.view_aggregate_ratio && self.view_aggregate_ratio <= LIMIT
    }
}

impl Default for Globals {
    /// A white seed, a hundred moving particles of radius 0.01, a 31 by 31
    /// grid with margins 0.05 and 0.5.
    fn default() -> (g: Globals)
        ensures
            g.valid(),
            g.seed_color == (Color { r: 65535, g: 65535, b: 65535, a: 65535 }),
            g.branch_thickness == 2_000_000,
            g.mutate_amount == 4587,
            g.dynamic_target == 100,
            g.zoom_smoothness == 950_000,
            g.world_aggregate_ratio == 1_600_000,
            g.view_aggregate_ratio == 1_100_000,
            g.particle_r == 10_000,
            g.grow_duration == 300,
            g.bin_count == 31,
            g.bin_margin_min == 50_000,
            g.bin_margin_max == 500_000,
            g.iters_per_frame == 1,
            g.is_playing,
    {
        Globals {
            seed_color: Color { r: 65535, g: 65535, b: 65535, a: 65535 },
            branch_thickness: 2_000_000,
            mutate_amount: 4587,
            dynamic_target: 100,
            zoom_smoothness: 950_000,
            world_aggregate_ratio: 1_600_000,
            view_aggregate_ratio: 1_100_000,
            particle_r: 10_000,
            grow_duration: 300,
            bin_count: 31,
            bin_margin_min: 50_000,
            bin_margin_max: 500_000,
            iters_per_frame: 1,
            is_playing: true,
        }
    }
}

} // verus!
