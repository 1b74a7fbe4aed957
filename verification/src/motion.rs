//! The motion of a particle on its walk: a straight step, and at the world
//! boundary a reflection followed by a small turn. Directions are computed
//! exactly in wide integers and then brought back to unit speed, so that
//! speed never drifts.

use crate::config::MAX_RADIUS;
use crate::geometry::{abs, lemma_scaled_to, magnitude, max, Vector, LIMIT, UNIT};
use crate::particle::DynamicParticle;
use vstd::arithmetic::div_mod::{lemma_fundamental_div_mod, lemma_mod_bound};
use vstd::prelude::*;

verus! {

/// Largest magnitude of the tangent of a turn, in millionths.
pub const MAX_TURN: i64 = 2_000_000;

/// Largest magnitude of a coordinate of a direction before it is turned.
pub const WIDE: i128 = 0x10_0000_0000_0000_0000_0000_0000;

/// The quotient of `a` by `k > 0`, rounded toward zero.
pub open spec fn trunc_div(a: int, k: int) -> int {
    if a < 0 {
        -((-a) / k)
    } else {
        a / k
    }
}

/// The mirror image of `v` in the line through the origin at right angles
/// to `p`, times the squared length of `p`: `v (p.p) - 2 (v.p) p`.
pub open spec fn reflected(v: Vector, p: Vector) -> (int, int) {
    let pp = p.x * p.x + p.y * p.y;
    let d = v.x * p.x + v.y * p.y;
    (v.x * pp - 2 * d * p.x, v.y * pp - 2 * d * p.y)
}

/// `w` turned by the angle of the vector `(a, b)`, times the length of
/// `(a, b)`.
pub open spec fn rotated(w: (int, int), a: int, b: int) -> (int, int) {
    (a * w.0 - b * w.1, b * w.0 + a * w.1)
}

/// The divisor that brings both coordinates of `w` below 2^31 in magnitude.
pub open spec fn shrink_factor(w: (int, int)) -> int {
    max(abs(w.0), abs(w.1)) / 0x8000_0000 + 1
}

/// `w` with both coordinates divided by `shrink_factor(w)`, rounding toward
/// zero.
pub open spec fn shrunk(w: (int, int)) -> Vector {
    Vector {
        x: trunc_div(w.0, shrink_factor(w)) as i64,
        y: trunc_div(w.1, shrink_factor(w)) as i64,
    }
}

/// The unit-speed velocity in the direction of `w` turned by the angle
/// whose tangent is `t` millionths.
pub open spec fn turned(w: (int, int), t: int) -> Vector {
    shrunk(rotated(w, UNIT as int, t)).scaled_to(UNIT as int)
}

/// The position one step of length `step` along `vel` from `pos`, each
/// coordinate of the displacement rounded toward zero.
pub open spec fn moved(pos: Vector, vel: Vector, step: int) -> Vector {
    Vector {
        x: (pos.x + trunc_div(vel.x * step, UNIT as int)) as i64,
        y: (pos.y + trunc_div(vel.y * step, UNIT as int)) as i64,
    }
}

/// A particle at `pos` is beyond the boundary of the world: farther from
/// the origin than the world radius. A particle on the boundary is not.
pub open spec fn leaves(pos: Vector, world_radius: int) -> bool {
    pos.norm_sq() > world_radius * world_radius
}

/// The particle after one tick: moved one step; where that takes it
/// beyond the boundary, put back onto it, its velocity mirrored in the
/// boundary and turned by the angle whose tangent is `t` millionths. A step
/// that ends on the boundary or inside it changes nothing but the position.
pub open spec fn stepped(p: DynamicParticle, world_radius: int, step: int, t: int)
    -> DynamicParticle {
    let to = moved(p.pos, p.vel, step);
    if leaves(to, world_radius) {
        DynamicParticle { pos: to.scaled_to(world_radius), vel: turned(reflected(p.vel, to), t) }
    } else {
        DynamicParticle { pos: to, vel: p.vel }
    }
}

/// The particle that spawning makes from a random point `a` and tangent
/// `t`: placed on the boundary in the direction of `a` (of the x axis where
/// `a` is the origin), heading inward, turned by the angle of tangent `t`.
pub open spec fn spawned(world_radius: int, a: Vector, t: int) -> DynamicParticle {
    let d = if a.norm_sq() == 0 {
        Vector { x: UNIT, y: 0 }
    } else {
        a
    };
    DynamicParticle { pos: d.scaled_to(world_radius), vel: turned((-d.x, -d.y), t) }
}

impl DynamicParticle {
    /// The particle is inside the world's limits and moves at unit speed.
    pub open spec fn valid(self) -> bool {
        self.pos.within(LIMIT as int) && self.vel.within(UNIT as int) && self.vel.has_length(
            UNIT as int,
        )
    }
}

/// Mirroring keeps the length: the squared length of `reflected(v, p)` is
/// that of `v` times the fourth power of the length of `p`.
pub proof fn lemma_reflected_norm(v: Vector, p: Vector)
    ensures
        reflected(v, p).0 * reflected(v, p).0 + reflected(v, p).1 * reflected(v, p).1
            == v.norm_sq() * (p.norm_sq() * p.norm_sq()),
{
    let vx = v.x as int;
    let vy = v.y as int;
    let px = p.x as int;
    let py = p.y as int;
    let pp = px * px + py * py;
    let d = vx * px + vy * py;
    let a = vx * pp;
    let b = vy * pp;
    let e = d * px;
    let f = d * py;
    assert(2 * d * px == 2 * e && 2 * d * py == 2 * f) by (nonlinear_arith)
        requires
            e == d * px,
            f == d * py,
    ;
    assert((a - 2 * e) * (a - 2 * e) + (b - 2 * f) * (b - 2 * f) == a * a + b * b - 4 * (a * e
        + b * f) + 4 * (e * e + f * f)) by (nonlinear_arith);
    lemma_square_product(vx, pp);
    lemma_square_product(vy, pp);
    lemma_square_product(d, px);
    lemma_square_product(d, py);
    let q = pp * pp;
    let dd = d * d;
    assert(vx * vx * q + vy * vy * q == (vx * vx + vy * vy) * q) by (nonlinear_arith);
    assert(dd * (px * px) + dd * (py * py) == dd * pp) by (nonlinear_arith)
        requires
            pp == px * px + py * py,
    ;
    lemma_cross_product(vx, pp, d, px);
    lemma_cross_product(vy, pp, d, py);
    let g = d * pp;
    assert(g * (vx * px) + g * (vy * py) == g * d) by (nonlinear_arith)
        requires
            d == vx * px + vy * py,
    ;
    assert(g * d == dd * pp) by (nonlinear_arith)
        requires
            g == d * pp,
            dd == d * d,
    ;
}

/// The square of a product is the product of the squares.
proof fn lemma_square_product(a: int, b: int)
    ensures
        (a * b) * (a * b) == (a * a) * (b * b),
{
    assert((a * b) * (a * b) == (a * a) * (b * b)) by (nonlinear_arith);
}

/// Four factors multiplied in pairs, either way.
proof fn lemma_cross_product(a: int, b: int, c: int, d: int)
    ensures
        (a * b) * (c * d) == (c * b) * (a * d),
{
    assert((a * b) * (c * d) == (c * b) * (a * d)) by (nonlinear_arith);
}

/// Turning keeps the length: the squared length of `rotated(w, a, b)` is
/// that of `w` times that of `(a, b)`.
pub proof fn lemma_rotated_norm(w: (int, int), a: int, b: int)
    ensures
        rotated(w, a, b).0 * rotated(w, a, b).0 + rotated(w, a, b).1 * rotated(w, a, b).1 == (a
            * a + b * b) * (w.0 * w.0 + w.1 * w.1),
{
    let x = w.0;
    let y = w.1;
    let p = a * x;
    let q = b * y;
    let r = b * x;
    let s = a * y;
    assert((p - q) * (p - q) + (r + s) * (r + s) == p * p + q * q + r * r + s * s - 2 * (p * q)
        + 2 * (r * s)) by (nonlinear_arith);
    lemma_cross_product(a, x, b, y);
    assert(p * q == r * s) by (nonlinear_arith)
        requires
            p * q == (b * x) * (a * y),
            r == b * x,
            s == a * y,
    ;
    lemma_square_product(a, x);
    lemma_square_product(b, y);
    lemma_square_product(b, x);
    lemma_square_product(a, y);
    let aa = a * a;
    let bb = b * b;
    let xx = x * x;
    let yy = y * y;
    assert((aa + bb) * (xx + yy) == aa * xx + bb * yy + bb * xx + aa * yy) by (nonlinear_arith);
}

/// Turning turns by the angle of `(a, b)`: the turned direction has with
/// `w` the dot product `a |w|^2` and the cross product `b |w|^2`, so the
/// tangent of the angle between them is `b / a`.
pub proof fn lemma_rotated_angle(w: (int, int), a: int, b: int)
    ensures
        rotated(w, a, b).0 * w.0 + rotated(w, a, b).1 * w.1 == a * (w.0 * w.0 + w.1 * w.1),
        w.0 * rotated(w, a, b).1 - w.1 * rotated(w, a, b).0 == b * (w.0 * w.0 + w.1 * w.1),
{
    let x = w.0;
    let y = w.1;
    assert((a * x - b * y) * x + (b * x + a * y) * y == a * (x * x + y * y)) by (nonlinear_arith);
    assert(x * (b * x + a * y) - y * (a * x - b * y) == b * (x * x + y * y)) by (nonlinear_arith);
}

/// A sum of two squares is zero only where both are.
pub proof fn lemma_square_sum_zero(x: int, y: int)
    ensures
        x * x + y * y >= 0,
        x * x + y * y == 0 <==> x == 0 && y == 0,
{
    assert(x * x >= 0 && y * y >= 0 && (x != 0 ==> x * x > 0) && (y != 0 ==> y * y > 0))
        by (nonlinear_arith);
}

/// The mirror image of a velocity other than zero, in a line through a
/// point other than the origin, is not zero.
pub proof fn lemma_reflected_nonzero(v: Vector, p: Vector)
    requires
        v.norm_sq() != 0,
        p.norm_sq() != 0,
    ensures
        reflected(v, p).0 != 0 || reflected(v, p).1 != 0,
{
    lemma_reflected_norm(v, p);
    lemma_square_sum_zero(v.x as int, v.y as int);
    lemma_square_sum_zero(p.x as int, p.y as int);
    lemma_square_sum_zero(reflected(v, p).0, reflected(v, p).1);
    let n = v.norm_sq();
    let q = p.norm_sq();
    assert(n * (q * q) > 0) by (nonlinear_arith)
        requires
            n > 0,
            q > 0,
    ;
}

/// A direction other than zero, turned, is not zero.
pub proof fn lemma_rotated_nonzero(w: (int, int), a: int, b: int)
    requires
        w.0 != 0 || w.1 != 0,
        a != 0,
    ensures
        rotated(w, a, b).0 != 0 || rotated(w, a, b).1 != 0,
{
    lemma_rotated_norm(w, a, b);
    lemma_square_sum_zero(w.0, w.1);
    lemma_square_sum_zero(a, b);
    lemma_square_sum_zero(rotated(w, a, b).0, rotated(w, a, b).1);
    let n = w.0 * w.0 + w.1 * w.1;
    let q = a * a + b * b;
    assert(q * n > 0) by (nonlinear_arith)
        requires
            n > 0,
            q > 0,
    ;
}

/// Shrinking brings both coordinates below 2^31 and keeps a direction
/// other than zero from becoming zero.
pub proof fn lemma_shrunk(w: (int, int))
    ensures
        -0x8000_0000 < trunc_div(w.0, shrink_factor(w)) < 0x8000_0000,
        -0x8000_0000 < trunc_div(w.1, shrink_factor(w)) < 0x8000_0000,
        (w.0 != 0 || w.1 != 0) ==> shrunk(w).norm_sq() != 0,
        (w.0 >= 0 ==> trunc_div(w.0, shrink_factor(w)) >= 0) && (w.0 <= 0 ==> trunc_div(
            w.0,
            shrink_factor(w),
        ) <= 0),
        (w.1 >= 0 ==> trunc_div(w.1, shrink_factor(w)) >= 0) && (w.1 <= 0 ==> trunc_div(
            w.1,
            shrink_factor(w),
        ) <= 0),
{
    let m = max(abs(w.0), abs(w.1));
    let k = shrink_factor(w);
    let b = 0x8000_0000int;
    lemma_fundamental_div_mod(m, b);
    lemma_mod_bound(m, b);
    assert(k >= 1 && k * b > m) by (nonlinear_arith)
        requires
            m == b * (m / b) + m % b,
            0 <= m % b < b,
            k == m / b + 1,
            m >= 0,
            b > 0,
    ;
    lemma_quotient_bound(abs(w.0), k, b);
    lemma_quotient_bound(abs(w.1), k, b);
    if w.0 != 0 || w.1 != 0 {
        assert(m >= k) by (nonlinear_arith)
            requires
                m == b * (m / b) + m % b,
                0 <= m % b < b,
                k == m / b + 1,
                m >= 1,
                b == 0x8000_0000,
        ;
        lemma_quotient_positive(m, k);
        let s = shrunk(w);
        lemma_square_sum_zero(s.x as int, s.y as int);
    }
}

/// Where `a < k * b`, the quotient of `a` by `k` is below `b`.
proof fn lemma_quotient_bound(a: int, k: int, b: int)
    requires
        0 <= a,
        1 <= k,
        a < k * b,
    ensures
        0 <= a / k < b,
{
    lemma_fundamental_div_mod(a, k);
    lemma_mod_bound(a, k);
    assert(0 <= a / k < b) by (nonlinear_arith)
        requires
            a == k * (a / k) + a % k,
            0 <= a % k < k,
            0 <= a < k * b,
            1 <= k,
    ;
}

/// Where `a >= k`, the quotient of `a` by `k` is at least one.
proof fn lemma_quotient_positive(a: int, k: int)
    requires
        1 <= k <= a,
    ensures
        a / k >= 1,
{
    lemma_fundamental_div_mod(a, k);
    lemma_mod_bound(a, k);
    assert(a / k >= 1) by (nonlinear_arith)
        requires
            a == k * (a / k) + a % k,
            0 <= a % k < k,
            1 <= k <= a,
    ;
}

/// Divides, rounding toward zero.
fn quotient(a: i128, k: i128) -> (r: i128)
    requires
        k > 0,
        a > i128::MIN,
    ensures
        r == trunc_div(a as int, k as int),
{
    if a < 0 {
        let q: u128 = ((-a) as u128) / (k as u128);
        -(q as i128)
    } else {
        let q: u128 = (a as u128) / (k as u128);
        q as i128
    }
}

/// The magnitude of a wide integer.
fn wide_magnitude(a: i128) -> (m: i128)
    requires
        a > i128::MIN,
    ensures
        m == abs(a as int),
{
    if a < 0 {
        -a
    } else {
        a
    }
}

/// The unit-speed velocity in the direction of `(wx, wy)` turned by the
/// angle whose tangent is `t` millionths.
pub fn turn(wx: i128, wy: i128, t: i64) -> (r: Vector)
    requires
        -WIDE <= wx <= WIDE,
        -WIDE <= wy <= WIDE,
        -MAX_TURN <= t <= MAX_TURN,
    ensures
        r == turned((wx as int, wy as int), t as int),
        r.within(UNIT as int),
        (wx != 0 || wy != 0) ==> r.has_length(UNIT as int),
{
    let a: i128 = UNIT as i128;
    let b: i128 = t as i128;
    assert(-0x40_0000 * WIDE <= a * wx <= 0x40_0000 * WIDE && -0x40_0000 * WIDE <= a * wy
        <= 0x40_0000 * WIDE && -0x40_0000 * WIDE <= b * wx <= 0x40_0000 * WIDE && -0x40_0000
        * WIDE <= b * wy <= 0x40_0000 * WIDE) by (nonlinear_arith)
        requires
            -WIDE <= wx <= WIDE,
            -WIDE <= wy <= WIDE,
            0 <= a <= 0x40_0000,
            -0x40_0000 <= b <= 0x40_0000,
    ;
    let rx: i128 = a * wx - b * wy;
    let ry: i128 = b * wx + a * wy;
    let mx: i128 = wide_magnitude(rx);
    let my: i128 = wide_magnitude(ry);
    let m: i128 = if mx >= my {
        mx
    } else {
        my
    };
    let k: i128 = ((m as u128) / 0x8000_0000u128) as i128 + 1;
    let sx: i128 = quotient(rx, k);
    let sy: i128 = quotient(ry, k);
    proof {
        let w = (wx as int, wy as int);
        let r = rotated(w, UNIT as int, t as int);
        assert(r == (rx as int, ry as int));
        assert(k == shrink_factor(r));
        lemma_shrunk(r);
        if wx != 0 || wy != 0 {
            lemma_rotated_nonzero(w, UNIT as int, t as int);
        }
    }
    let s = Vector { x: sx as i64, y: sy as i64 };
    assert(s == shrunk(rotated((wx as int, wy as int), UNIT as int, t as int)));
    s.scale_to(UNIT)
}

impl DynamicParticle {
    /// The position one step of length `step` on.
    pub fn advanced(&self, step: i64) -> (r: Vector)
        requires
            self.pos.within(LIMIT as int),
            self.vel.within(UNIT as int),
            0 <= step <= MAX_RADIUS,
        ensures
            r == moved(self.pos, self.vel, step as int),
            r.within(LIMIT + MAX_RADIUS),
    {
        let vx: i128 = self.vel.x as i128;
        let vy: i128 = self.vel.y as i128;
        let s: i128 = step as i128;
        assert(-268_435_456_000_000 <= vx * s <= 268_435_456_000_000 && -268_435_456_000_000
            <= vy * s <= 268_435_456_000_000 && abs(vx * s) < 1_000_000 * (s + 1) && abs(vy * s)
            < 1_000_000 * (s + 1)) by (nonlinear_arith)
            requires
                -1_000_000 <= vx <= 1_000_000,
                -1_000_000 <= vy <= 1_000_000,
                0 <= s <= 268_435_456,
        ;
        let dx: i128 = quotient(vx * s, UNIT as i128);
        let dy: i128 = quotient(vy * s, UNIT as i128);
        proof {
            lemma_quotient_bound(abs(vx * s), UNIT as int, s + 1);
            lemma_quotient_bound(abs(vy * s), UNIT as int, s + 1);
        }
        Vector { x: self.pos.x + dx as i64, y: self.pos.y + dy as i64 }
    }

    /// The particle put back onto the boundary of the world from `to`,
    /// where its step took it, its velocity mirrored in the boundary and
    /// turned by the angle whose tangent is `t` millionths.
    pub fn bounced(&self, to: Vector, world_radius: i64, t: i64) -> (r: DynamicParticle)
        requires
            self.vel.within(UNIT as int),
            to.within(LIMIT + MAX_RADIUS),
            1 <= world_radius <= LIMIT,
            -MAX_TURN <= t <= MAX_TURN,
        ensures
            r.pos == to.scaled_to(world_radius as int),
            r.vel == turned(reflected(self.vel, to), t as int),
            r.pos.within(world_radius as int),
            r.vel.within(UNIT as int),
            to.norm_sq() != 0 ==> r.pos.has_length(world_radius as int),
            to.norm_sq() != 0 && self.vel.norm_sq() != 0 ==> r.vel.has_length(UNIT as int),
    {
        let vx: i128 = self.vel.x as i128;
        let vy: i128 = self.vel.y as i128;
        let px: i128 = to.x as i128;
        let py: i128 = to.y as i128;
        let bound: i128 = 0x8000_0000;
        assert(0 <= px * px <= bound * bound && 0 <= py * py <= bound * bound) by (nonlinear_arith)
            requires
                -bound <= px <= bound,
                -bound <= py <= bound,
        ;
        let pp: i128 = px * px + py * py;
        assert(-UNIT * bound <= vx * px <= UNIT * bound && -UNIT * bound <= vy * py <= UNIT
            * bound) by (nonlinear_arith)
            requires
                -bound <= px <= bound,
                -bound <= py <= bound,
                -UNIT <= vx <= UNIT,
                -UNIT <= vy <= UNIT,
                bound > 0,
        ;
        let d: i128 = vx * px + vy * py;
        let top: i128 = 2 * bound * bound;
        let far: i128 = 2 * UNIT as i128 * bound;
        assert(-UNIT * top <= vx * pp <= UNIT * top && -UNIT * top <= vy * pp <= UNIT * top)
            by (nonlinear_arith)
            requires
                0 <= pp <= top,
                -UNIT <= vx <= UNIT,
                -UNIT <= vy <= UNIT,
        ;
        assert(-far * bound <= d * px <= far * bound && -far * bound <= d * py <= far * bound)
            by (nonlinear_arith)
            requires
                -far <= d <= far,
                -bound <= px <= bound,
                -bound <= py <= bound,
                far >= 0,
                bound > 0,
        ;
        let wx: i128 = vx * pp - 2 * (d * px);
        let wy: i128 = vy * pp - 2 * (d * py);
        proof {
            assert(2 * (d * px) == 2 * d * px && 2 * (d * py) == 2 * d * py) by (nonlinear_arith);
            assert((wx as int, wy as int) == reflected(self.vel, to));
            if to.norm_sq() != 0 && self.vel.norm_sq() != 0 {
                lemma_reflected_nonzero(self.vel, to);
            }
        }
        DynamicParticle { pos: to.scale_to(world_radius), vel: turn(wx, wy, t) }
    }

    /// Whether a particle at `to` is beyond the boundary of the world.
    pub fn leaves_world(to: Vector, world_radius: i64) -> (r: bool)
        requires
            to.within(LIMIT + MAX_RADIUS),
            0 <= world_radius <= LIMIT,
        ensures
            r == leaves(to, world_radius as int),
    {
        let n: u128 = to.length_squared();
        let w: u128 = world_radius as u128;
        assert(w * w <= 0x1000_0000_0000_0000) by (nonlinear_arith)
            requires
                w <= 0x4000_0000,
        ;
        n > w * w
    }

    /// The particle one tick on, with `t` the tangent of the turn it makes
    /// if the step takes it beyond the boundary.
    pub fn stepped_with(&self, world_radius: i64, step: i64, t: i64) -> (r: DynamicParticle)
        requires
            self.valid(),
            1 <= world_radius <= LIMIT,
            0 <= step <= MAX_RADIUS,
            -MAX_TURN <= t <= MAX_TURN,
        ensures
            r == stepped(*self, world_radius as int, step as int, t as int),
            r.valid(),
    {
        let to = self.advanced(step);
        if Self::leaves_world(to, world_radius) {
            proof {
                lemma_leaving_nonzero(to, world_radius as int);
                lemma_unit_nonzero(self.vel);
            }
            self.bounced(to, world_radius, t)
        } else {
            proof {
                lemma_inside(to, world_radius as int);
            }
            DynamicParticle { pos: to, vel: self.vel }
        }
    }

    /// The particle that spawning makes from the random point `a` and the
    /// tangent `t` of its turn away from the inward direction.
    pub fn spawned_with(world_radius: i64, a: Vector, t: i64) -> (r: DynamicParticle)
        requires
            1 <= world_radius <= LIMIT,
            a.within(UNIT as int),
            -MAX_TURN <= t <= MAX_TURN,
        ensures
            r == spawned(world_radius as int, a, t as int),
            r.valid(),
            r.pos.has_length(world_radius as int),
    {
        let d = if a.x == 0 && a.y == 0 {
            Vector { x: UNIT, y: 0 }
        } else {
            a
        };
        proof {
            lemma_square_sum_zero(a.x as int, a.y as int);
            lemma_square_sum_zero(d.x as int, d.y as int);
        }
        let pos = d.scale_to(world_radius);
        let vel = turn(-(d.x as i128), -(d.y as i128), t);
        DynamicParticle { pos, vel }
    }
}

/// A point beyond the boundary is not the origin.
pub proof fn lemma_leaving_nonzero(to: Vector, world_radius: int)
    requires
        leaves(to, world_radius),
    ensures
        to.norm_sq() != 0,
{
    assert(world_radius * world_radius >= 0) by (nonlinear_arith);
}

/// A velocity of unit speed is not zero.
pub proof fn lemma_unit_nonzero(v: Vector)
    requires
        v.has_length(UNIT as int),
    ensures
        v.norm_sq() != 0,
{
    if v.norm_sq() == 0 {
        lemma_square_sum_zero(v.x as int, v.y as int);
        assert(v.x == 0 && v.y == 0);
        assert((abs(0) + 1) * (abs(0) + 1) == 1) by (nonlinear_arith);
        assert(UNIT * UNIT == 1_000_000_000_000) by (nonlinear_arith);
    }
}

/// A point on the boundary or inside it has no coordinate longer than the
/// radius.
pub proof fn lemma_inside(to: Vector, world_radius: int)
    requires
        !leaves(to, world_radius),
        0 <= world_radius,
    ensures
        to.within(world_radius),
{
    let x = to.x as int;
    let y = to.y as int;
    assert(-world_radius <= x <= world_radius && -world_radius <= y <= world_radius)
        by (nonlinear_arith)
        requires
            x * x + y * y <= world_radius * world_radius,
            0 <= world_radius,
    ;
}

/// The displacement of one step is no longer than the step.
pub proof fn lemma_moved(pos: Vector, vel: Vector, step: int)
    requires
        pos.within(LIMIT as int),
        vel.within(UNIT as int),
        0 <= step <= MAX_RADIUS,
    ensures
        moved(pos, vel, step).within(LIMIT + MAX_RADIUS),
        moved(pos, vel, step).x == pos.x + trunc_div(vel.x * step, UNIT as int),
        moved(pos, vel, step).y == pos.y + trunc_div(vel.y * step, UNIT as int),
{
    let vx = vel.x as int;
    let vy = vel.y as int;
    assert(abs(vx * step) < 1_000_000 * (step + 1) && abs(vy * step) < 1_000_000 * (step + 1))
        by (nonlinear_arith)
        requires
            -1_000_000 <= vx <= 1_000_000,
            -1_000_000 <= vy <= 1_000_000,
            0 <= step,
    ;
    lemma_quotient_bound(abs(vx * step), UNIT as int, step + 1);
    lemma_quotient_bound(abs(vy * step), UNIT as int, step + 1);
}

/// A direction other than zero, turned and brought to unit speed, has
/// unit speed.
pub proof fn lemma_turned(w: (int, int), t: int)
    ensures
        turned(w, t).within(UNIT as int),
        (w.0 != 0 || w.1 != 0) ==> turned(w, t).has_length(UNIT as int),
{
    let r = rotated(w, UNIT as int, t);
    lemma_shrunk(r);
    if w.0 != 0 || w.1 != 0 {
        lemma_rotated_nonzero(w, UNIT as int, t);
    }
    lemma_scaled_to(shrunk(r), UNIT as int);
}

/// Speed is unchanged by a bounce: a velocity of unit speed, mirrored in
/// the boundary at any point but the origin and turned by any angle, has
/// unit speed.
pub proof fn lemma_bounce_keeps_speed(v: Vector, to: Vector, t: int)
    requires
        v.has_length(UNIT as int),
        to.norm_sq() != 0,
    ensures
        turned(reflected(v, to), t).has_length(UNIT as int),
        turned(reflected(v, to), t).within(UNIT as int),
{
    lemma_unit_nonzero(v);
    lemma_reflected_nonzero(v, to);
    lemma_turned(reflected(v, to), t);
}

/// A particle that is within limits and at unit speed is so after a tick,
/// whatever the turn.
pub proof fn lemma_stepped_valid(p: DynamicParticle, world_radius: int, step: int, t: int)
    requires
        p.valid(),
        1 <= world_radius <= LIMIT,
        0 <= step <= MAX_RADIUS,
    ensures
        stepped(p, world_radius, step, t).valid(),
        stepped(p, world_radius, step, t).pos.within(world_radius),
{
    let to = moved(p.pos, p.vel, step);
    lemma_moved(p.pos, p.vel, step);
    if leaves(to, world_radius) {
        lemma_leaving_nonzero(to, world_radius);
        lemma_bounce_keeps_speed(p.vel, to, t);
        lemma_scaled_to(to, world_radius);
    } else {
        lemma_inside(to, world_radius);
    }
}

/// A step that ends on the boundary or inside it moves the particle and
/// leaves its velocity as it was, whatever the turn.
pub proof fn lemma_stepped_inside(p: DynamicParticle, world_radius: int, step: int, t: int)
    requires
        moved(p.pos, p.vel, step).norm_sq() <= world_radius * world_radius,
    ensures
        stepped(p, world_radius, step, t).pos == moved(p.pos, p.vel, step),
        stepped(p, world_radius, step, t).vel == p.vel,
{
}

/// A spawned particle is on the boundary of the world, within limits and
/// at unit speed.
pub proof fn lemma_spawned_valid(world_radius: int, a: Vector, t: int)
    requires
        1 <= world_radius <= LIMIT,
        a.within(UNIT as int),
    ensures
        spawned(world_radius, a, t).valid(),
        spawned(world_radius, a, t).pos.has_length(world_radius),
{
    let d = if a.norm_sq() == 0 {
        Vector { x: UNIT, y: 0 }
    } else {
        a
    };
    lemma_square_sum_zero(d.x as int, d.y as int);
    lemma_scaled_to(d, world_radius);
    lemma_turned((-d.x, -d.y), t);
}

} // verus!
