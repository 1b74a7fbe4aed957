//! Fixed-point plane geometry: integer vectors, floor square roots, and the
//! rescaling of a vector to a wanted length.
//!
//! One world unit is `UNIT` grid steps. Every coordinate the library stores
//! stays within `LIMIT` of the origin, so that squares and products of
//! coordinates fit the machine integers used for them.

use vstd::arithmetic::div_mod::{lemma_fundamental_div_mod, lemma_mod_bound};
use vstd::prelude::*;

verus! {

/// Grid steps per world unit.
pub const UNIT: i64 = 1_000_000;

/// Largest magnitude of a stored coordinate or length, in grid steps.
pub const LIMIT: i64 = 1_073_741_824;

/// Largest magnitude of a coordinate of a vector that can be rescaled.
pub const SPAN: i64 = 4_294_967_296;

/// A point or displacement of the plane, in grid steps.
#[derive(Clone, Copy, Debug, PartialEq, Eq, Structural)]
pub struct Vector {
    pub x: i64,
    pub y: i64,
}

/// The absolute value of an integer.
pub open spec fn abs(a: int) -> int {
    if a < 0 {
        -a
    } else {
        a
    }
}

/// The smaller of two integers.
pub open spec fn min(a: int, b: int) -> int {
    if a <= b {
        a
    } else {
        b
    }
}

/// The larger of two integers.
pub open spec fn max(a: int, b: int) -> int {
    if a >= b {
        a
    } else {
        b
    }
}

/// `r` is the floor of the square root of `n`.
pub open spec fn is_sqrt_floor(n: int, r: int) -> bool {
    0 <= r && r * r <= n && n < (r + 1) * (r + 1)
}

/// The floor of the square root of `n`: the one `r >= 0` with
/// `r * r <= n < (r + 1) * (r + 1)`.
pub open spec fn sqrt_floor(n: int) -> int {
    choose|r: int| is_sqrt_floor(n, r)
}

/// Every non-negative integer has a floor square root.
pub proof fn lemma_sqrt_floor_exists(n: int) -> (r: int)
    requires
        0 <= n,
    ensures
        is_sqrt_floor(n, r),
    decreases n,
{
    if n == 0 {
        assert(is_sqrt_floor(0, 0));
        0
    } else {
        let p = lemma_sqrt_floor_exists(n - 1);
        let q = p + 1;
        if q * q <= n {
            assert(n < (q + 1) * (q + 1)) by (nonlinear_arith)
                requires
                    n - 1 < q * q,
                    0 <= q,
            ;
            q
        } else {
            assert(p * p <= n);
            p
        }
    }
}

/// No integer has two floor square roots.
pub proof fn lemma_sqrt_floor_unique(n: int, a: int, b: int)
    requires
        is_sqrt_floor(n, a),
        is_sqrt_floor(n, b),
    ensures
        a == b,
{
    if a < b {
        assert((a + 1) * (a + 1) <= b * b) by (nonlinear_arith)
            requires
                0 <= a,
                a + 1 <= b,
        ;
    } else if b < a {
        assert((b + 1) * (b + 1) <= a * a) by (nonlinear_arith)
            requires
                0 <= b,
                b + 1 <= a,
        ;
    }
}

/// `sqrt_floor(n)` is the floor square root of every `n >= 0`, and any `r`
/// that brackets `n` between two consecutive squares equals it.
pub proof fn lemma_sqrt_floor(n: int)
    requires
        0 <= n,
    ensures
        is_sqrt_floor(n, sqrt_floor(n)),
        forall|r: int| is_sqrt_floor(n, r) ==> r == sqrt_floor(n),
{
    let w = lemma_sqrt_floor_exists(n);
    assert(is_sqrt_floor(n, sqrt_floor(n)));
    assert forall|r: int| is_sqrt_floor(n, r) implies r == sqrt_floor(n) by {
        lemma_sqrt_floor_unique(n, r, sqrt_floor(n));
    }
}

/// The floor square root is monotone.
pub proof fn lemma_sqrt_floor_monotone(a: int, b: int)
    requires
        0 <= a <= b,
    ensures
        sqrt_floor(a) <= sqrt_floor(b),
{
    lemma_sqrt_floor(a);
    lemma_sqrt_floor(b);
    let ra = sqrt_floor(a);
    let rb = sqrt_floor(b);
    if rb < ra {
        assert((rb + 1) * (rb + 1) <= ra * ra) by (nonlinear_arith)
            requires
                0 <= rb,
                rb + 1 <= ra,
        ;
    }
}

/// The floor square root of a perfect square is its root.
pub proof fn lemma_sqrt_floor_square(r: int)
    requires
        0 <= r,
    ensures
        sqrt_floor(r * r) == r,
{
    assert(0 <= r * r) by (nonlinear_arith)
        requires
            0 <= r,
    ;
    lemma_sqrt_floor(r * r);
    assert(r * r < (r + 1) * (r + 1)) by (nonlinear_arith)
        requires
            0 <= r,
    ;
    assert(is_sqrt_floor(r * r, r));
}

/// Computes the floor of the square root of `n` by bisection.
pub fn isqrt(n: u128) -> (r: u64)
    ensures
        r == sqrt_floor(n as int),
        is_sqrt_floor(n as int, r as int),
{
    let mut lo: u128 = 0;
    let mut hi: u128 = 0x1_0000_0000_0000_0000;
    assert(n < hi * hi) by (nonlinear_arith)
        requires
            hi == 0x1_0000_0000_0000_0000,
            n <= u128::MAX,
    ;
    while hi - lo > 1
        invariant
            lo < hi <= 0x1_0000_0000_0000_0000,
            lo * lo <= n,
            n < hi * hi,
        decreases hi - lo,
    {
        let mid: u128 = lo + (hi - lo) / 2;
        assert(mid * mid <= u128::MAX) by (nonlinear_arith)
            requires
                mid < 0x1_0000_0000_0000_0000,
        ;
        if mid * mid <= n {
            lo = mid;
        } else {
            hi = mid;
        }
    }
    proof {
        assert(hi == lo + 1);
        assert(is_sqrt_floor(n as int, lo as int));
        lemma_sqrt_floor(n as int);
    }
    lo as u64
}

/// The magnitude of a machine integer.
pub fn magnitude(c: i64) -> (m: u64)
    requires
        c > i64::MIN,
    ensures
        m == abs(c as int),
{
    if c < 0 {
        (-c) as u64
    } else {
        c as u64
    }
}

/// One coordinate of a vector rescaled to length `len`: `c` is the
/// coordinate and `d > 0` the squared length of the vector it belongs to.
/// The magnitude is the floor of `|c| * len / sqrt(d)`, the sign that of `c`.
pub open spec fn scaled(c: int, d: int, len: int) -> int {
    let m = sqrt_floor(((c * c) * (len * len)) / d);
    if c < 0 {
        -m
    } else {
        m
    }
}

impl Vector {
    /// The squared Euclidean length.
    pub open spec fn norm_sq(self) -> int {
        self.x * self.x + self.y * self.y
    }

    /// Both coordinates have magnitude at most `bound`.
    pub open spec fn within(self, bound: int) -> bool {
        -bound <= self.x <= bound && -bound <= self.y <= bound
    }

    /// The squared Euclidean distance between two points.
    pub open spec fn dist_sq(self, other: Vector) -> int {
        (self.x - other.x) * (self.x - other.x) + (self.y - other.y) * (self.y - other.y)
    }

    /// The vector of the same direction and length `len`, each coordinate
    /// rounded toward zero; the zero vector stays zero.
    pub open spec fn scaled_to(self, len: int) -> Vector {
        if self.norm_sq() == 0 {
            Vector { x: 0, y: 0 }
        } else {
            Vector {
                x: scaled(self.x as int, self.norm_sq(), len) as i64,
                y: scaled(self.y as int, self.norm_sq(), len) as i64,
            }
        }
    }

    /// The floor of the Euclidean length.
    pub open spec fn length(self) -> int {
        sqrt_floor(self.norm_sq())
    }

    /// Whether the length is `len` up to rounding: not longer than `len`, and
    /// longer once each coordinate is moved one grid step outward.
    pub open spec fn has_length(self, len: int) -> bool {
        self.norm_sq() <= len * len && len * len < (abs(self.x as int) + 1) * (abs(self.x as int)
            + 1) + (abs(self.y as int) + 1) * (abs(self.y as int) + 1)
    }

    /// Whether the distance to `other` is `len` up to rounding: not more
    /// than `len`, and more once this point is moved one grid step away from
    /// `other` along each axis.
    pub open spec fn at_distance(self, other: Vector, len: int) -> bool {
        self.dist_sq(other) <= len * len && len * len < (abs(self.x - other.x) + 1) * (abs(
            self.x - other.x,
        ) + 1) + (abs(self.y - other.y) + 1) * (abs(self.y - other.y) + 1)
    }

    /// The componentwise sum.
    pub fn plus(self, other: Vector) -> (r: Vector)
        requires
            self.within(2 * SPAN),
            other.within(2 * SPAN),
        ensures
            r.x == self.x + other.x,
            r.y == self.y + other.y,
    {
        Vector { x: self.x + other.x, y: self.y + other.y }
    }

    /// The componentwise difference.
    pub fn minus(self, other: Vector) -> (r: Vector)
        requires
            self.within(2 * SPAN),
            other.within(2 * SPAN),
        ensures
            r.x == self.x - other.x,
            r.y == self.y - other.y,
    {
        Vector { x: self.x - other.x, y: self.y - other.y }
    }

    /// The squared distance to `other`.
    pub fn distance_squared(self, other: Vector) -> (r: u128)
        requires
            self.within(2 * SPAN),
            other.within(2 * SPAN),
        ensures
            r == self.dist_sq(other),
    {
        let dx: u128 = magnitude(self.x - other.x) as u128;
        let dy: u128 = magnitude(self.y - other.y) as u128;
        assert(dx * dx <= 0x1_0000_0000_0000_0000_0000 && dy * dy
            <= 0x1_0000_0000_0000_0000_0000) by (nonlinear_arith)
            requires
                dx <= 0x4_0000_0000,
                dy <= 0x4_0000_0000,
        ;
        assert(dx * dx == (self.x - other.x) * (self.x - other.x)) by (nonlinear_arith)
            requires
                dx == abs(self.x - other.x),
        ;
        assert(dy * dy == (self.y - other.y) * (self.y - other.y)) by (nonlinear_arith)
            requires
                dy == abs(self.y - other.y),
        ;
        dx * dx + dy * dy
    }

    /// The squared length.
    pub fn length_squared(self) -> (r: u128)
        requires
            self.within(2 * SPAN),
        ensures
            r == self.norm_sq(),
    {
        let r = self.distance_squared(Vector { x: 0, y: 0 });
        r
    }

    /// The floor of the length.
    pub fn floor_length(self) -> (r: i64)
        requires
            self.within(SPAN as int),
        ensures
            r == self.length(),
            0 <= r <= 2 * SPAN,
            r * r <= self.norm_sq() < (r + 1) * (r + 1),
    {
        let n = self.length_squared();
        let r = isqrt(n);
        proof {
            assert(n <= 2 * (SPAN * SPAN)) by (nonlinear_arith)
                requires
                    n == self.x * self.x + self.y * self.y,
                    -SPAN <= self.x <= SPAN,
                    -SPAN <= self.y <= SPAN,
            ;
            if r > 2 * SPAN {
                assert(r * r > 2 * (SPAN * SPAN)) by (nonlinear_arith)
                    requires
                        r > 2 * SPAN,
                        SPAN > 0,
                ;
            }
        }
        r as i64
    }

    /// Rescales the vector to length `len`, keeping its direction.
    pub fn scale_to(self, len: i64) -> (r: Vector)
        requires
            self.within(SPAN as int),
            0 <= len <= 2 * LIMIT,
        ensures
            r == self.scaled_to(len as int),
            r.within(len as int),
            self.norm_sq() != 0 ==> r.has_length(len as int),
            self.x >= 0 ==> r.x >= 0,
            self.x <= 0 ==> r.x <= 0,
            self.y >= 0 ==> r.y >= 0,
            self.y <= 0 ==> r.y <= 0,
    {
        let ax: u128 = magnitude(self.x) as u128;
        let ay: u128 = magnitude(self.y) as u128;
        assert(ax * ax <= 0x1_0000_0000_0000_0000 && ay * ay <= 0x1_0000_0000_0000_0000)
            by (nonlinear_arith)
            requires
                ax <= 0x1_0000_0000,
                ay <= 0x1_0000_0000,
        ;
        assert(ax * ax == self.x * self.x && ay * ay == self.y * self.y) by (nonlinear_arith)
            requires
                ax == abs(self.x as int),
                ay == abs(self.y as int),
        ;
        let xx: u128 = ax * ax;
        let yy: u128 = ay * ay;
        let d: u128 = xx + yy;
        if d == 0 {
            return Vector { x: 0, y: 0 };
        }
        let l: u128 = len as u128;
        assert(l * l <= 0x4000_0000_0000_0000) by (nonlinear_arith)
            requires
                l <= 0x8000_0000,
        ;
        let ll: u128 = l * l;
        assert(xx * ll <= 0x4000_0000_0000_0000_0000_0000_0000_0000 && yy * ll
            <= 0x4000_0000_0000_0000_0000_0000_0000_0000) by (nonlinear_arith)
            requires
                xx <= 0x1_0000_0000_0000_0000,
                yy <= 0x1_0000_0000_0000_0000,
                ll <= 0x4000_0000_0000_0000,
        ;
        let mx: u64 = isqrt(xx * ll / d);
        let my: u64 = isqrt(yy * ll / d);
        proof {
            lemma_scaled_bound(self.x as int, self.y as int, len as int);
            lemma_scaled_bound(self.y as int, self.x as int, len as int);
            lemma_scaled_length(self.x as int, self.y as int, len as int);
            assert(self.y * self.y + self.x * self.x == self.norm_sq());
            lemma_scaled_zero(self.x as int, self.norm_sq(), len as int);
            lemma_scaled_zero(self.y as int, self.norm_sq(), len as int);
        }
        Vector {
            x: if self.x < 0 {
                -(mx as i64)
            } else {
                mx as i64
            },
            y: if self.y < 0 {
                -(my as i64)
            } else {
                my as i64
            },
        }
    }
}

/// A rescaled coordinate is no longer than the wanted length.
pub proof fn lemma_scaled_bound(c: int, o: int, len: int)
    requires
        c * c + o * o > 0,
        0 <= len,
    ensures
        abs(scaled(c, c * c + o * o, len)) <= len,
        abs(scaled(c, c * c + o * o, len)) == sqrt_floor(((c * c) * (len * len)) / (c * c + o
            * o)),
{
    let d = c * c + o * o;
    let a = (c * c) * (len * len);
    let q = a / d;
    assert(0 <= a && a <= d * (len * len) && 0 <= len * len) by (nonlinear_arith)
        requires
            a == (c * c) * (len * len),
            d == c * c + o * o,
    ;
    lemma_fundamental_div_mod(a, d);
    lemma_mod_bound(a, d);
    assert(0 <= q && q <= len * len) by (nonlinear_arith)
        requires
            a == d * q + a % d,
            0 <= a % d < d,
            0 <= a <= d * (len * len),
            d > 0,
    ;
    lemma_sqrt_floor(q);
    lemma_sqrt_floor_monotone(q, len * len);
    lemma_sqrt_floor_square(len);
}

/// A rescaled non-zero vector has the wanted length up to rounding: it is no
/// longer than `len`, and longer than `len` once each coordinate is moved one
/// grid step outward.
pub proof fn lemma_scaled_length(x: int, y: int, len: int)
    requires
        x * x + y * y > 0,
        0 <= len,
    ensures
        ({
            let d = x * x + y * y;
            let mx = abs(scaled(x, d, len));
            let my = abs(scaled(y, d, len));
            &&& mx * mx + my * my <= len * len
            &&& len * len < (mx + 1) * (mx + 1) + (my + 1) * (my + 1)
            &&& scaled(x, d, len) * scaled(x, d, len) == mx * mx
            &&& scaled(y, d, len) * scaled(y, d, len) == my * my
        }),
{
    let d = x * x + y * y;
    let ll = len * len;
    let a = (x * x) * ll;
    let b = (y * y) * ll;
    let qa = a / d;
    let qb = b / d;
    lemma_scaled_bound(x, y, len);
    assert(y * y + x * x == d);
    lemma_scaled_bound(y, x, len);
    let mx = abs(scaled(x, d, len));
    let my = abs(scaled(y, d, len));
    assert(0 <= a && 0 <= b && a + b == d * ll) by (nonlinear_arith)
        requires
            a == (x * x) * ll,
            b == (y * y) * ll,
            d == x * x + y * y,
            ll == len * len,
    ;
    lemma_fundamental_div_mod(a, d);
    lemma_mod_bound(a, d);
    lemma_fundamental_div_mod(b, d);
    lemma_mod_bound(b, d);
    assert(0 <= qa && 0 <= qb) by (nonlinear_arith)
        requires
            a == d * qa + a % d,
            b == d * qb + b % d,
            0 <= a % d < d,
            0 <= b % d < d,
            0 <= a,
            0 <= b,
            d > 0,
    ;
    lemma_sqrt_floor(qa);
    lemma_sqrt_floor(qb);
    assert(mx == sqrt_floor(qa));
    assert(my == sqrt_floor(qb));
    assert(qa + qb <= ll) by (nonlinear_arith)
        requires
            a == d * qa + a % d,
            b == d * qb + b % d,
            0 <= a % d,
            0 <= b % d,
            a + b == d * ll,
            d > 0,
    ;
    assert(qa + 1 + qb + 1 > ll) by (nonlinear_arith)
        requires
            a == d * qa + a % d,
            b == d * qb + b % d,
            a % d < d,
            b % d < d,
            a + b == d * ll,
            d > 0,
    ;
    assert(scaled(x, d, len) * scaled(x, d, len) == mx * mx) by (nonlinear_arith)
        requires
            mx == abs(scaled(x, d, len)),
    ;
    assert(scaled(y, d, len) * scaled(y, d, len) == my * my) by (nonlinear_arith)
        requires
            my == abs(scaled(y, d, len)),
    ;
}

/// A zero coordinate stays zero when its vector is rescaled.
pub proof fn lemma_scaled_zero(c: int, d: int, len: int)
    requires
        d > 0,
    ensures
        c == 0 ==> scaled(c, d, len) == 0,
{
    if c == 0 {
        assert((c * c) * (len * len) == 0) by (nonlinear_arith)
            requires
                c == 0,
        ;
        assert(0int / d == 0) by (nonlinear_arith)
            requires
                d > 0,
        ;
        lemma_sqrt_floor(0);
        assert(is_sqrt_floor(0, 0));
    }
}

/// A rescaled vector has no coordinate longer than the wanted length,
/// and, unless it is zero, has that length up to rounding.
pub proof fn lemma_scaled_to(v: Vector, len: int)
    requires
        0 <= len <= 2 * LIMIT,
    ensures
        v.scaled_to(len).within(len),
        v.norm_sq() != 0 ==> v.scaled_to(len).has_length(len),
{
    let n = v.norm_sq();
    if n != 0 {
        assert(n > 0) by (nonlinear_arith)
            requires
                n == v.x * v.x + v.y * v.y,
                n != 0,
        ;
        lemma_scaled_bound(v.x as int, v.y as int, len);
        assert(v.y * v.y + v.x * v.x == n);
        lemma_scaled_bound(v.y as int, v.x as int, len);
        lemma_scaled_length(v.x as int, v.y as int, len);
    }
}

/// The floor of the length of a vector that has length `len` up to
/// rounding is `len`, or less by at most two.
pub proof fn lemma_rounded_length(v: Vector, len: int)
    requires
        v.has_length(len),
        0 <= len,
    ensures
        len - 2 <= v.length() <= len,
        0 <= v.length(),
{
    let n = v.norm_sq();
    let a = abs(v.x as int);
    let b = abs(v.y as int);
    assert(n == a * a + b * b && n >= 0) by (nonlinear_arith)
        requires
            n == v.x * v.x + v.y * v.y,
            a == abs(v.x as int),
            b == abs(v.y as int),
    ;
    lemma_sqrt_floor(n);
    let m = v.length();
    if m > len {
        assert(m * m > len * len) by (nonlinear_arith)
            requires
                m > len,
                len >= 0,
        ;
    }
    if m <= len - 3 {
        let e = len - 2;
        let s = a + b;
        assert(n < e * e) by (nonlinear_arith)
            requires
                n < (m + 1) * (m + 1),
                0 <= m + 1 <= e,
        ;
        assert(s * s <= 2 * n) by (nonlinear_arith)
            requires
                s == a + b,
                n == a * a + b * b,
        ;
        if 2 * s > 3 * e {
            assert(4 * (s * s) > 8 * (e * e)) by (nonlinear_arith)
                requires
                    2 * s > 3 * e,
                    e >= 1,
                    s >= 0,
            ;
        }
        assert((a + 1) * (a + 1) + (b + 1) * (b + 1) == n + 2 * s + 2) by (nonlinear_arith)
            requires
                n == a * a + b * b,
                s == a + b,
        ;
        assert(e * e + 3 * e + 1 < len * len) by (nonlinear_arith)
            requires
                e == len - 2,
                len >= 3,
        ;
    }
}

} // verus!
