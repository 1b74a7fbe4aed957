//! Frozen and moving particles, the overlap test between them, and the
//! placement and colouring of a particle that freezes.

use crate::config::{Globals, MAX_RADIUS};
use crate::geometry::{
    abs, lemma_scaled_bound, lemma_scaled_length, lemma_scaled_zero, lemma_sqrt_floor_square,
    Vector, LIMIT,
};
use crate::rng::gen_range;
use vstd::prelude::*;

verus! {

/// Largest magnitude of a coordinate of a frozen particle: a particle
/// freezes at most one diameter beyond the moving particle it came from.
pub const FIELD: i64 = 1_610_612_736;

/// An RGBA colour, each channel from 0 to 65535.
#[derive(Clone, Copy, Debug, PartialEq, Eq, Structural)]
pub struct Color {
    pub r: u16,
    pub g: u16,
    pub b: u16,
    pub a: u16,
}

/// A particle of the aggregate: placed once, never moved.
#[derive(Clone, Copy, Debug, PartialEq, Eq, Structural)]
pub struct StaticParticle {
    pub pos: Vector,
    pub color: Color,
}

/// A particle on its random walk.
#[derive(Clone, Copy, Debug, PartialEq, Eq, Structural)]
pub struct DynamicParticle {
    pub pos: Vector,
    pub vel: Vector,
}

/// Two particles of radius `radius` centred at `a` and `b` touch or overlap.
pub open spec fn overlaps(a: Vector, b: Vector, radius: int) -> bool {
    a.dist_sq(b) <= 4 * radius * radius
}

/// A channel moved by `jitter` and held to the channel range.
pub open spec fn shifted(channel: u16, jitter: int) -> u16 {
    let v = channel + jitter;
    if v < 0 {
        0u16
    } else if v > 65535 {
        65535u16
    } else {
        v as u16
    }
}

/// The colour `col` with its three colour channels moved by the three
/// jitters, the opacity kept.
pub open spec fn mutated(col: Color, jr: int, jg: int, jb: int) -> Color {
    Color { r: shifted(col.r, jr), g: shifted(col.g, jg), b: shifted(col.b, jb), a: col.a }
}

/// The three jitters of a colour are within `amount`.
pub open spec fn jitter_within(j: (int, int, int), amount: int) -> bool {
    abs(j.0) <= amount && abs(j.1) <= amount && abs(j.2) <= amount
}

/// The displacement from the frozen particle at `hit` to where a particle
/// freezes that touched it while at `moving`: one diameter long, toward
/// `moving`; along the x axis where the two centres coincide and there is no
/// direction to take.
pub open spec fn contact_offset(moving: Vector, hit: Vector, radius: int) -> Vector {
    if moving == hit {
        Vector { x: (2 * radius) as i64, y: 0 }
    } else {
        (Vector { x: (moving.x - hit.x) as i64, y: (moving.y - hit.y) as i64 }).scaled_to(
            2 * radius,
        )
    }
}

/// Where a particle freezes that touched the frozen particle at `hit` while
/// at `moving`: one diameter from `hit`, toward `moving`. Only the direction
/// of `moving` from `hit` enters, not how far along it `moving` is.
pub open spec fn contact_point(moving: Vector, hit: Vector, radius: int) -> Vector {
    let o = contact_offset(moving, hit, radius);
    Vector { x: (hit.x + o.x) as i64, y: (hit.y + o.y) as i64 }
}

/// Moves one channel by `jitter`, saturating at the ends of the range.
pub fn shift_channel(channel: u16, jitter: i32) -> (r: u16)
    ensures
        r == shifted(channel, jitter as int),
        abs(r - channel) <= abs(jitter as int),
{
    let v: i64 = channel as i64 + jitter as i64;
    if v < 0 {
        0
    } else if v > 65535 {
        65535
    } else {
        v as u16
    }
}

/// Moves the three colour channels of `col` by the three jitters.
pub fn mutate_col_with(col: &Color, jr: i32, jg: i32, jb: i32) -> (r: Color)
    ensures
        r == mutated(*col, jr as int, jg as int, jb as int),
{
    Color {
        r: shift_channel(col.r, jr),
        g: shift_channel(col.g, jg),
        b: shift_channel(col.b, jb),
        a: col.a,
    }
}

/// Moves each colour channel of `col` by a random amount of at most
/// `amount`, the three drawn independently; the opacity is kept.
pub fn mutate_col(col: &Color, amount: u16) -> (r: Color)
    ensures
        exists|j: (int, int, int)| #[trigger]
            jitter_within(j, amount as int) && r == mutated(*col, j.0, j.1, j.2),
        abs(r.r - col.r) <= amount,
        abs(r.g - col.g) <= amount,
        abs(r.b - col.b) <= amount,
        r.a == col.a,
{
    let a: i32 = amount as i32;
    let jr: i32 = gen_range(-a, a);
    let jg: i32 = gen_range(-a, a);
    let jb: i32 = gen_range(-a, a);
    let r = mutate_col_with(col, jr, jg, jb);
    proof {
        let j = (jr as int, jg as int, jb as int);
        assert(jitter_within(j, amount as int) && r == mutated(*col, j.0, j.1, j.2));
    }
    r
}

impl DynamicParticle {
    /// Whether this particle touches or overlaps the frozen particle `other`.
    pub fn collides(&self, other: &StaticParticle, globals: &Globals) -> (r: bool)
        requires
            self.pos.within(LIMIT as int),
            other.pos.within(FIELD as int),
            0 <= globals.particle_r <= MAX_RADIUS,
        ensures
            r == overlaps(self.pos, other.pos, globals.particle_r as int),
    {
        let d: u128 = self.pos.distance_squared(other.pos);
        let r: u128 = globals.particle_r as u128;
        assert(4 * r * r <= 0x1000_0000_0000_0000) by (nonlinear_arith)
            requires
                r <= 0x1000_0000,
        ;
        d <= 4 * r * r
    }

    /// The point at which this particle freezes against `hit`: one
    /// diameter from `hit` toward this particle, wherever within that
    /// diameter this particle is; along the x axis where it sits exactly on
    /// `hit`.
    pub fn contact(&self, hit: &StaticParticle, globals: &Globals) -> (r: Vector)
        requires
            self.pos.within(LIMIT as int),
            hit.pos.within(FIELD as int),
            0 <= globals.particle_r <= MAX_RADIUS,
        ensures
            r == contact_point(self.pos, hit.pos, globals.particle_r as int),
            r.within(FIELD as int),
            r.at_distance(hit.pos, 2 * globals.particle_r),
            globals.particle_r >= 1 ==> r != hit.pos,
    {
        proof {
            lemma_contact_point(self.pos, hit.pos, globals.particle_r as int);
        }
        let o = if self.pos == hit.pos {
            Vector { x: 2 * globals.particle_r, y: 0 }
        } else {
            self.pos.minus(hit.pos).scale_to(2 * globals.particle_r)
        };
        hit.pos.plus(o)
    }

    /// The frozen particle this one becomes on touching `hit`: placed at
    /// the contact point, coloured like `hit` with the given jitters.
    pub fn to_static_with(
        &self,
        hit: &StaticParticle,
        globals: &Globals,
        jr: i32,
        jg: i32,
        jb: i32,
    ) -> (r: StaticParticle)
        requires
            self.pos.within(LIMIT as int),
            hit.pos.within(FIELD as int),
            0 <= globals.particle_r <= MAX_RADIUS,
        ensures
            r.pos == contact_point(self.pos, hit.pos, globals.particle_r as int),
            r.color == mutated(hit.color, jr as int, jg as int, jb as int),
            r.pos.within(FIELD as int),
            r.pos.at_distance(hit.pos, 2 * globals.particle_r),
            globals.particle_r >= 1 ==> r.pos != hit.pos,
    {
        StaticParticle {
            pos: self.contact(hit, globals),
            color: mutate_col_with(&hit.color, jr, jg, jb),
        }
    }

    /// The frozen particle this one becomes on touching `hit`: placed at
    /// the contact point, its colour that of `hit` moved at random by at most
    /// `globals.mutate_amount` per channel.
    pub fn to_static(&self, hit: &StaticParticle, globals: &Globals) -> (r: StaticParticle)
        requires
            self.pos.within(LIMIT as int),
            hit.pos.within(FIELD as int),
            0 <= globals.particle_r <= MAX_RADIUS,
        ensures
            r.pos == contact_point(self.pos, hit.pos, globals.particle_r as int),
            r.pos.within(FIELD as int),
            r.pos.at_distance(hit.pos, 2 * globals.particle_r),
            globals.particle_r >= 1 ==> r.pos != hit.pos,
            exists|j: (int, int, int)| #[trigger]
                jitter_within(j, globals.mutate_amount as int) && r.color == mutated(
                    hit.color,
                    j.0,
                    j.1,
                    j.2,
                ),
            abs(r.color.r - hit.color.r) <= globals.mutate_amount,
            abs(r.color.g - hit.color.g) <= globals.mutate_amount,
            abs(r.color.b - hit.color.b) <= globals.mutate_amount,
            r.color.a == hit.color.a,
    {
        StaticParticle {
            pos: self.contact(hit, globals),
            color: mutate_col(&hit.color, globals.mutate_amount),
        }
    }
}

/// A coordinate that starts at `from` and moves by `step`, a step of the
/// sign of `to - from` and no longer than `reach`, ends no farther out than
/// `from`, or no more than `reach` beyond `to`.
proof fn lemma_toward(to: int, from: int, step: int, reach: int)
    requires
        -LIMIT <= to <= LIMIT,
        -FIELD <= from <= FIELD,
        abs(step) <= reach <= 2 * MAX_RADIUS,
        (to - from >= 0 ==> step >= 0),
        (to - from <= 0 ==> step <= 0),
    ensures
        -FIELD <= from + step <= FIELD,
{
}

/// A particle always freezes one diameter from the particle it touched,
/// up to rounding, wherever it was when it touched, also where it sat
/// exactly on that particle; it freezes within the field; and, the radius
/// being at least one grid step, it never freezes where that particle is.
pub proof fn lemma_contact_point(moving: Vector, hit: Vector, radius: int)
    requires
        moving.within(LIMIT as int),
        hit.within(FIELD as int),
        0 <= radius <= MAX_RADIUS,
    ensures
        contact_point(moving, hit, radius).within(FIELD as int),
        contact_point(moving, hit, radius).at_distance(hit, 2 * radius),
        radius >= 1 ==> contact_point(moving, hit, radius) != hit,
        contact_point(moving, hit, radius).x - hit.x == contact_offset(moving, hit, radius).x,
        contact_point(moving, hit, radius).y - hit.y == contact_offset(moving, hit, radius).y,
        contact_offset(moving, hit, radius).within(2 * radius),
        moving.x >= hit.x ==> contact_offset(moving, hit, radius).x >= 0,
        moving.x < hit.x ==> contact_offset(moving, hit, radius).x <= 0,
        moving.y >= hit.y ==> contact_offset(moving, hit, radius).y >= 0,
        moving.y <= hit.y ==> contact_offset(moving, hit, radius).y <= 0,
{
    let len = 2 * radius;
    let o = contact_offset(moving, hit, radius);
    let c = contact_point(moving, hit, radius);
    if moving == hit {
        assert(o.x == len && o.y == 0);
        assert(c.x - hit.x == len && c.y - hit.y == 0);
        assert(c.dist_sq(hit) == len * len && len * len < (abs(len) + 1) * (abs(len) + 1) + (abs(
            0,
        ) + 1) * (abs(0) + 1)) by (nonlinear_arith)
            requires
                c.dist_sq(hit) == (c.x - hit.x) * (c.x - hit.x) + (c.y - hit.y) * (c.y - hit.y),
                c.x - hit.x == len,
                c.y - hit.y == 0,
                len >= 0,
        ;
    } else {
        let d = Vector { x: (moving.x - hit.x) as i64, y: (moving.y - hit.y) as i64 };
        let n = d.norm_sq();
        assert(n > 0) by (nonlinear_arith)
            requires
                n == d.x * d.x + d.y * d.y,
                d.x != 0 || d.y != 0,
        ;
        lemma_scaled_bound(d.x as int, d.y as int, len);
        assert(d.y * d.y + d.x * d.x == n);
        lemma_scaled_bound(d.y as int, d.x as int, len);
        lemma_scaled_length(d.x as int, d.y as int, len);
        lemma_scaled_zero(d.x as int, n, len);
        lemma_scaled_zero(d.y as int, n, len);
        lemma_toward(moving.x as int, hit.x as int, o.x as int, len);
        lemma_toward(moving.y as int, hit.y as int, o.y as int, len);
        assert(c.x - hit.x == o.x && c.y - hit.y == o.y);
        assert(c.dist_sq(hit) == o.x * o.x + o.y * o.y);
    }
    if radius >= 1 && c == hit {
        assert((abs(0) + 1) * (abs(0) + 1) + (abs(0) + 1) * (abs(0) + 1) == 2) by (nonlinear_arith);
        assert(len * len >= 4) by (nonlinear_arith)
            requires
                len >= 2,
        ;
    }
}

/// A particle that touched from straight along the x axis freezes exactly
/// one diameter along that axis, on the side it came from.
pub proof fn lemma_contact_on_axis(moving: Vector, hit: Vector, radius: int)
    requires
        moving.within(LIMIT as int),
        hit.within(FIELD as int),
        0 <= radius <= MAX_RADIUS,
        moving.y == hit.y,
    ensures
        moving.x >= hit.x ==> contact_point(moving, hit, radius) == (Vector {
            x: (hit.x + 2 * radius) as i64,
            y: hit.y,
        }),
        moving.x < hit.x ==> contact_point(moving, hit, radius) == (Vector {
            x: (hit.x - 2 * radius) as i64,
            y: hit.y,
        }),
{
    lemma_contact_point(moving, hit, radius);
    if moving != hit {
        let len = 2 * radius;
        let dx = moving.x - hit.x;
        let n = dx * dx + 0 * 0;
        assert(n == dx * dx && n > 0 && (dx * dx) * (len * len) == (len * len) * n && len * len
            >= 0) by (nonlinear_arith)
            requires
                n == dx * dx + 0 * 0,
                dx != 0,
        ;
        vstd::arithmetic::div_mod::lemma_div_by_multiple(len * len, n);
        lemma_sqrt_floor_square(len);
        lemma_scaled_zero(0, n, len);
        let d = Vector { x: dx as i64, y: 0 };
        assert(d.norm_sq() == n);
    }
}

/// A colour moved by jitters within `amount` differs from the colour it
/// came from by at most `amount` in each colour channel, and not at all in
/// opacity.
pub proof fn lemma_mutated_within(col: Color, j: (int, int, int), amount: int)
    requires
        jitter_within(j, amount),
    ensures
        abs(mutated(col, j.0, j.1, j.2).r - col.r) <= amount,
        abs(mutated(col, j.0, j.1, j.2).g - col.g) <= amount,
        abs(mutated(col, j.0, j.1, j.2).b - col.b) <= amount,
        mutated(col, j.0, j.1, j.2).a == col.a,
{
}

/// Overlap does not depend on which of the two particles asks.
pub proof fn lemma_overlap_symmetric(a: Vector, b: Vector, radius: int)
    ensures
        overlaps(a, b, radius) == overlaps(b, a, radius),
{
    assert(a.dist_sq(b) == b.dist_sq(a)) by (nonlinear_arith)
        requires
            a.dist_sq(b) == (a.x - b.x) * (a.x - b.x) + (a.y - b.y) * (a.y - b.y),
            b.dist_sq(a) == (b.x - a.x) * (b.x - a.x) + (b.y - a.y) * (b.y - a.y),
    ;
}

/// Two particles overlap exactly when their centres are no more than one
/// diameter apart: at one diameter they do, at anything more they do not.
pub proof fn lemma_overlap_threshold(a: Vector, b: Vector, radius: int)
    ensures
        overlaps(a, b, radius) <==> a.dist_sq(b) <= (2 * radius) * (2 * radius),
        a.dist_sq(b) == (2 * radius) * (2 * radius) ==> overlaps(a, b, radius) && overlaps(
            b,
            a,
            radius,
        ),
        a.dist_sq(b) > (2 * radius) * (2 * radius) ==> !overlaps(a, b, radius) && !overlaps(
            b,
            a,
            radius,
        ),
{
    lemma_overlap_symmetric(a, b, radius);
    assert((2 * radius) * (2 * radius) == 4 * radius * radius) by (nonlinear_arith);
}

} // verus!
