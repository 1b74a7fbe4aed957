//! The mathematical model of the spatial index: a square grid over a
//! rectangle, the particles in one sequence ordered by cell, and the offset
//! of each cell's run. Inserting and querying are defined here as functions
//! on that model, and what holds of them is proved here.

use crate::config::MAX_BIN_COUNT;
use crate::geometry::{max, min, Vector, LIMIT};
use crate::grouping::{
    grouped, lemma_grouped_member, lemma_grouped_permutes, lemma_grouped_prefix, lemma_grouped_run,
    with_key,
};
use crate::particle::{overlaps, StaticParticle, FIELD};
use vstd::arithmetic::div_mod::{lemma_fundamental_div_mod, lemma_mod_bound};
use vstd::prelude::*;
use vstd::seq_lib::{to_multiset_build, to_multiset_insert};

verus! {

/// Largest magnitude of a side of the indexed rectangle.
pub const GRID: i64 = 2_684_354_560;

/// The indexed rectangle: `xmin <= x < xmax`, `ymin <= y < ymax`.
#[derive(Clone, Copy, Debug, PartialEq, Eq, Structural)]
pub struct Extent {
    pub xmin: i64,
    pub xmax: i64,
    pub ymin: i64,
    pub ymax: i64,
}

/// The grid column (or row) of coordinate `p` when `[lo, hi)` is cut into
/// `count` equal cells: the floor of `(p - lo) / (hi - lo) * count`, or
/// nothing outside `[lo, hi)`.
pub open spec fn axis_cell(p: int, lo: int, hi: int, count: int) -> Option<int> {
    if lo <= p < hi {
        Some(((p - lo) * count) / (hi - lo))
    } else {
        None
    }
}

/// The cell of `pos` in the grid of `count` by `count` cells over `e`,
/// numbered row by row, or nothing outside `e`.
pub open spec fn cell_of(e: Extent, count: int, pos: Vector) -> Option<usize> {
    match (
        axis_cell(pos.x as int, e.xmin as int, e.xmax as int, count),
        axis_cell(pos.y as int, e.ymin as int, e.ymax as int, count),
    ) {
        (Some(cx), Some(cy)) => Some((cx + cy * count) as usize),
        _ => None,
    }
}

impl Extent {
    /// `pos` lies in the rectangle.
    pub open spec fn holds(self, pos: Vector) -> bool {
        self.xmin <= pos.x < self.xmax && self.ymin <= pos.y < self.ymax
    }

    /// The rectangle contains `other`.
    pub open spec fn covers(self, other: Extent) -> bool {
        self.xmin <= other.xmin && other.xmax <= self.xmax && self.ymin <= other.ymin
            && other.ymax <= self.ymax
    }

    /// No side is farther than `GRID` from the origin.
    pub open spec fn bounded(self) -> bool {
        -GRID <= self.xmin <= self.xmax <= GRID && -GRID <= self.ymin <= self.ymax <= GRID
    }

    /// `pos` is closer than `margin` to a side, or beyond it.
    pub open spec fn near_edge(self, pos: Vector, margin: int) -> bool {
        pos.x < self.xmin + margin || pos.x > self.xmax - margin || pos.y < self.ymin + margin
            || pos.y > self.ymax - margin
    }

    /// The rectangle with each side moved outward, where needed, to lie
    /// `margin` beyond `pos`.
    pub open spec fn grown(self, pos: Vector, margin: int) -> Extent {
        Extent {
            xmin: min(self.xmin as int, pos.x - margin) as i64,
            xmax: max(self.xmax as int, pos.x + margin) as i64,
            ymin: min(self.ymin as int, pos.y - margin) as i64,
            ymax: max(self.ymax as int, pos.y + margin) as i64,
        }
    }
}

/// A coordinate inside `[lo, hi)` falls in one of the `count` cells.
pub proof fn lemma_axis_cell_range(p: int, lo: int, hi: int, count: int)
    requires
        lo <= p < hi,
        1 <= count,
    ensures
        0 <= ((p - lo) * count) / (hi - lo) < count,
{
    let a = (p - lo) * count;
    let d = hi - lo;
    lemma_fundamental_div_mod(a, d);
    lemma_mod_bound(a, d);
    assert(0 <= a / d < count) by (nonlinear_arith)
        requires
            a == d * (a / d) + a % d,
            0 <= a % d < d,
            a == (p - lo) * count,
            0 <= p - lo < d,
            1 <= count,
    ;
}

/// A point has a cell exactly when the rectangle holds it, and the cell is
/// one of the `count * count` cells of the grid.
pub proof fn lemma_cell_of(e: Extent, count: int, pos: Vector)
    requires
        1 <= count <= MAX_BIN_COUNT,
    ensures
        cell_of(e, count, pos).is_some() <==> e.holds(pos),
        cell_of(e, count, pos).is_some() ==> cell_of(e, count, pos).unwrap() < count * count,
        e.holds(pos) ==> cell_of(e, count, pos).unwrap() == ((pos.x - e.xmin) * count) / (e.xmax
            - e.xmin) + (((pos.y - e.ymin) * count) / (e.ymax - e.ymin)) * count,
{
    if e.holds(pos) {
        lemma_axis_cell_range(pos.x as int, e.xmin as int, e.xmax as int, count);
        lemma_axis_cell_range(pos.y as int, e.ymin as int, e.ymax as int, count);
        let cx = ((pos.x - e.xmin) * count) / (e.xmax - e.xmin);
        let cy = ((pos.y - e.ymin) * count) / (e.ymax - e.ymin);
        assert(0 <= cx + cy * count < count * count && count * count <= 1024 * 1024)
            by (nonlinear_arith)
            requires
                0 <= cx < count,
                0 <= cy < count,
                count <= 1024,
        ;
    }
}

/// The offsets never decrease over `0 ..= m`.
pub open spec fn rising(offsets: Seq<int>, m: int) -> bool {
    forall|i: int, j: int| 0 <= i <= j <= m ==> #[trigger] offsets[i] <= #[trigger] offsets[j]
}

/// Index `k` lies in the run of cell `c`.
pub open spec fn in_run(offsets: Seq<int>, c: int, k: int) -> bool {
    offsets[c] <= k < offsets[c + 1]
}

/// Every particle of a run maps to the run's cell.
pub open spec fn sorted_into(
    particles: Seq<StaticParticle>,
    offsets: Seq<int>,
    e: Extent,
    n: int,
    m: int,
) -> bool {
    forall|c: int, k: int|
        0 <= c < m && #[trigger] in_run(offsets, c, k) ==> cell_of(e, n, particles[k].pos) == Some(
            c as usize,
        )
}

/// Every particle lies in the field and in the rectangle.
pub open spec fn all_held(particles: Seq<StaticParticle>, e: Extent) -> bool {
    forall|k: int|
        0 <= k < particles.len() ==> (#[trigger] particles[k]).pos.within(FIELD as int)
            && e.holds(particles[k].pos)
}

/// The index of the first particle among `particles[lo .. hi]`, `hi`
/// excluded, that overlaps a particle at `pos`.
pub open spec fn first_hit(
    particles: Seq<StaticParticle>,
    lo: int,
    hi: int,
    pos: Vector,
    radius: int,
) -> Option<int>
    decreases hi - lo,
{
    if lo >= hi {
        None
    } else if overlaps(pos, particles[lo].pos, radius) {
        Some(lo)
    } else {
        first_hit(particles, lo + 1, hi, pos, radius)
    }
}

/// The probe points of a query at `pos`, numbered 0 to 8: `pos` moved by
/// minus one, zero or one radius along each axis, the x offset changing
/// slowest. Probe 4 is `pos` itself.
pub open spec fn probe(pos: Vector, radius: int, k: int) -> Vector {
    Vector {
        x: (pos.x + (k / 3 - 1) * radius) as i64,
        y: (pos.y + (k % 3 - 1) * radius) as i64,
    }
}

/// The key that regridding orders the particles by: the cell, or -1 for a
/// particle outside the rectangle.
pub open spec fn cell_key(e: Extent, count: int) -> spec_fn(StaticParticle) -> int {
    |q: StaticParticle|
        match cell_of(e, count, q.pos) {
            Some(c) => c as int,
            None => -1,
        }
}

/// The state of the index.
pub struct Grid {
    /// The particles, in bucket order.
    pub particles: Seq<StaticParticle>,
    /// Entry `c` is the index of the first particle of cell `c`, the last
    /// entry the number of particles.
    pub offsets: Seq<int>,
    /// The indexed rectangle.
    pub extent: Extent,
    /// Cells along one axis.
    pub count: int,
}

impl Grid {
    /// The number of cells.
    pub open spec fn cells(self) -> int {
        self.count * self.count
    }

    /// The cell of `pos`.
    pub open spec fn cell(self, pos: Vector) -> Option<usize> {
        cell_of(self.extent, self.count, pos)
    }

    /// The bucket invariant: the offsets start at zero, never decrease and
    /// end at the number of particles, and the particles between two
    /// consecutive offsets all map to the cell the first offset belongs to.
    pub open spec fn wf(self) -> bool {
        &&& 1 <= self.count <= MAX_BIN_COUNT
        &&& self.offsets.len() == self.cells() + 1
        &&& self.extent.bounded()
        &&& self.offsets[0] == 0
        &&& self.offsets[self.cells()] == self.particles.len()
        &&& rising(self.offsets, self.cells())
        &&& sorted_into(self.particles, self.offsets, self.extent, self.count, self.cells())
        &&& all_held(self.particles, self.extent)
    }

    /// The empty index of `count` cells a side over the empty rectangle at
    /// the origin.
    pub open spec fn empty(count: int) -> Grid {
        Grid {
            particles: Seq::empty(),
            offsets: Seq::new((count * count + 1) as nat, |i: int| 0int),
            extent: Extent { xmin: 0, xmax: 0, ymin: 0, ymax: 0 },
            count,
        }
    }

    /// Whether inserting a particle at `pos` regrids: `pos` is closer than
    /// `margin` to a side of the rectangle, or outside it.
    pub open spec fn regrids(self, pos: Vector, margin: int) -> bool {
        self.extent.near_edge(pos, margin) || self.cell(pos).is_none()
    }

    /// The index with `p` put at the start of the run of its cell, and the
    /// offsets of all later cells moved up by one.
    pub open spec fn placed(self, p: StaticParticle) -> Grid {
        let c = self.cell(p.pos).unwrap() as int;
        Grid {
            particles: self.particles.insert(self.offsets[c], p),
            offsets: Seq::new(
                self.offsets.len(),
                |i: int|
                    if i > c {
                        self.offsets[i] + 1
                    } else {
                        self.offsets[i]
                    },
            ),
            extent: self.extent,
            count: self.count,
        }
    }

    /// The index with the rectangle grown to lie `margin` beyond `p`, and
    /// the particles and `p` ordered anew by cell in the grown grid, those of
    /// one cell in their former order, `p` last among them.
    pub open spec fn regridded(self, p: StaticParticle, margin: int) -> Grid {
        let e = self.extent.grown(p.pos, margin);
        let s = self.particles.push(p);
        let key = cell_key(e, self.count);
        Grid {
            particles: grouped(s, key, self.cells()),
            offsets: Seq::new(
                (self.cells() + 1) as nat,
                |c: int| grouped(s, key, c).len() as int,
            ),
            extent: e,
            count: self.count,
        }
    }

    /// The index after inserting `p` with margins `inner` and `outer`.
    pub open spec fn inserted(self, p: StaticParticle, inner: int, outer: int) -> Grid {
        if self.regrids(p.pos, inner) {
            self.regridded(p, outer)
        } else {
            self.placed(p)
        }
    }

    /// The index after inserting the particles of `ps` one after another.
    pub open spec fn inserted_all(self, ps: Seq<StaticParticle>, inner: int, outer: int) -> Grid
        decreases ps.len(),
    {
        if ps.len() == 0 {
            self
        } else {
            self.inserted_all(ps.drop_last(), inner, outer).inserted(ps.last(), inner, outer)
        }
    }

    /// The index of the first particle of cell `c` that overlaps a particle
    /// at `pos`.
    pub open spec fn run_hit(self, c: int, pos: Vector, radius: int) -> Option<int> {
        first_hit(self.particles, self.offsets[c], self.offsets[c + 1], pos, radius)
    }

    /// What probes `k` to 8 find: the first overlap in the cell of the first
    /// probe point that has a cell other than `home` with an overlap in it.
    pub open spec fn probe_hit(self, pos: Vector, radius: int, home: usize, k: int) -> Option<int>
        decreases 9 - k,
    {
        if k >= 9 {
            None
        } else {
            let here = match self.cell(probe(pos, radius, k)) {
                Some(c) => if c != home {
                    self.run_hit(c as int, pos, radius)
                } else {
                    None
                },
                None => None,
            };
            if here.is_some() {
                here
            } else {
                self.probe_hit(pos, radius, home, k + 1)
            }
        }
    }

    /// The index of the particle that a query at `pos` reports: the first
    /// overlap in the cell of `pos`, else what the probes find; nothing for a
    /// `pos` outside the rectangle.
    pub open spec fn hit_index(self, pos: Vector, radius: int) -> Option<int> {
        match self.cell(pos) {
            None => None,
            Some(home) => {
                let h = self.run_hit(home as int, pos, radius);
                if h.is_some() {
                    h
                } else {
                    self.probe_hit(pos, radius, home, 0)
                }
            },
        }
    }

    /// The particle that a query at `pos` reports.
    pub open spec fn colliding(self, pos: Vector, radius: int) -> Option<StaticParticle> {
        match self.hit_index(pos, radius) {
            Some(i) => Some(self.particles[i]),
            None => None,
        }
    }
}

/// Moving the offsets after cell `c` up by one keeps them rising.
proof fn lemma_shift_rising(before: Seq<int>, after: Seq<int>, m: int, c: int)
    requires
        rising(before, m),
        0 <= c < m,
        forall|i: int| 0 <= i <= c ==> #[trigger] after[i] == before[i],
        forall|i: int| c < i <= m ==> #[trigger] after[i] == before[i] + 1,
    ensures
        rising(after, m),
{
    assert forall|i: int, j: int| 0 <= i <= j <= m implies #[trigger] after[i]
        <= #[trigger] after[j] by {
        assert(before[i] <= before[j]);
    }
}

/// Putting `p` at the start of the run of its cell `c` keeps every run in
/// its cell.
proof fn lemma_shift_sorted(
    held: Seq<StaticParticle>,
    before: Seq<int>,
    after: Seq<int>,
    e: Extent,
    n: int,
    m: int,
    p: StaticParticle,
    c: int,
)
    requires
        rising(before, m),
        sorted_into(held, before, e, n, m),
        before[0] == 0,
        before[m] == held.len(),
        0 <= c < m,
        cell_of(e, n, p.pos) == Some(c as usize),
        forall|i: int| 0 <= i <= c ==> #[trigger] after[i] == before[i],
        forall|i: int| c < i <= m ==> #[trigger] after[i] == before[i] + 1,
    ensures
        sorted_into(held.insert(before[c], p), after, e, n, m),
{
    let at = before[c];
    let grown = held.insert(at, p);
    assert(before[0] <= before[c] <= before[m]);
    assert forall|d: int, k: int| 0 <= d < m && #[trigger] in_run(after, d, k) implies cell_of(
        e,
        n,
        grown[k].pos,
    ) == Some(d as usize) by {
        assert(before[0] <= before[d] <= before[d + 1]);
        assert(before[d + 1] <= before[m]);
        if d < c {
            assert(before[d + 1] <= before[c]);
            assert(after[d] == before[d] && after[d + 1] == before[d + 1]);
            assert(k < at);
            assert(grown[k] == held[k]);
            assert(in_run(before, d, k));
        } else if d == c {
            assert(after[d] == before[d] && after[d + 1] == before[d + 1] + 1);
            if k > at {
                assert(grown[k] == held[k - 1]);
                assert(in_run(before, d, k - 1));
            } else {
                assert(grown[k] == p);
            }
        } else {
            assert(before[c] <= before[d]);
            assert(after[d] == before[d] + 1 && after[d + 1] == before[d + 1] + 1);
            assert(k > at);
            assert(grown[k] == held[k - 1]);
            assert(in_run(before, d, k - 1));
        }
    }
}

/// Adding a particle that lies in the field and the rectangle keeps all
/// particles there.
proof fn lemma_insert_held(held: Seq<StaticParticle>, e: Extent, p: StaticParticle, at: int)
    requires
        all_held(held, e),
        0 <= at <= held.len(),
        p.pos.within(FIELD as int),
        e.holds(p.pos),
    ensures
        all_held(held.insert(at, p), e),
{
    let grown = held.insert(at, p);
    assert forall|k: int| 0 <= k < grown.len() implies (#[trigger] grown[k]).pos.within(
        FIELD as int,
    ) && e.holds(grown[k].pos) by {
        if k < at {
            assert(grown[k] == held[k]);
        } else if k > at {
            assert(grown[k] == held[k - 1]);
        } else {
            assert(grown[k] == p);
        }
    }
}

/// Placing a particle in its cell keeps the bucket invariant, and adds the
/// particle and nothing else.
pub proof fn lemma_placed(g: Grid, p: StaticParticle)
    requires
        g.wf(),
        p.pos.within(FIELD as int),
        g.cell(p.pos).is_some(),
    ensures
        g.placed(p).wf(),
        g.placed(p).particles.to_multiset() == g.particles.to_multiset().insert(p),
        g.placed(p).particles.len() == g.particles.len() + 1,
{
    let c = g.cell(p.pos).unwrap() as int;
    let m = g.cells();
    let r = g.placed(p);
    lemma_cell_of(g.extent, g.count, p.pos);
    assert(g.offsets[0] <= g.offsets[c] <= g.offsets[m]);
    lemma_shift_rising(g.offsets, r.offsets, m, c);
    lemma_shift_sorted(g.particles, g.offsets, r.offsets, g.extent, g.count, m, p, c);
    lemma_insert_held(g.particles, g.extent, p, g.offsets[c]);
    to_multiset_insert(g.particles, g.offsets[c], p);
}

/// Particles grouped by their cell, with the offsets that grouping gives,
/// satisfy the bucket invariant.
proof fn lemma_grouped_bucketed(s: Seq<StaticParticle>, e: Extent, n: int)
    requires
        1 <= n <= MAX_BIN_COUNT,
        e.bounded(),
        all_held(s, e),
    ensures
        (Grid {
            particles: grouped(s, cell_key(e, n), n * n),
            offsets: Seq::new(
                (n * n + 1) as nat,
                |c: int| grouped(s, cell_key(e, n), c).len() as int,
            ),
            extent: e,
            count: n,
        }).wf(),
        grouped(s, cell_key(e, n), n * n).to_multiset() == s.to_multiset(),
        grouped(s, cell_key(e, n), n * n).len() == s.len(),
{
    let key = cell_key(e, n);
    let m = n * n;
    let out = grouped(s, key, m);
    let offsets = Seq::new((m + 1) as nat, |c: int| grouped(s, key, c).len() as int);
    assert(0 <= m) by (nonlinear_arith)
        requires
            m == n * n,
    ;
    assert(grouped(s, key, 0).len() == 0);
    assert(rising(offsets, m)) by {
        assert forall|i: int, j: int| 0 <= i <= j <= m implies #[trigger] offsets[i]
            <= #[trigger] offsets[j] by {
            lemma_grouped_prefix(s, key, i, j);
        }
    }
    assert(sorted_into(out, offsets, e, n, m)) by {
        assert forall|c: int, k: int| 0 <= c < m && #[trigger] in_run(offsets, c, k) implies cell_of(
            e,
            n,
            out[k].pos,
        ) == Some(c as usize) by {
            let run = s.filter(with_key(key, c));
            let r = k - offsets[c];
            assert(grouped(s, key, c + 1) == grouped(s, key, c) + run);
            lemma_grouped_run(s, key, m, c, r);
            assert(key(out[k]) == c);
        }
    }
    assert(all_held(out, e)) by {
        assert forall|k: int| 0 <= k < out.len() implies (#[trigger] out[k]).pos.within(
            FIELD as int,
        ) && e.holds(out[k].pos) by {
            lemma_grouped_member(s, key, m, k);
            let j = choose|j: int| 0 <= j < s.len() && s[j] == out[k];
            assert(s[j].pos.within(FIELD as int) && e.holds(s[j].pos));
        }
    }
    assert forall|k: int| 0 <= k < s.len() implies 0 <= key(#[trigger] s[k]) < m by {
        lemma_cell_of(e, n, s[k].pos);
        assert(e.holds(s[k].pos));
    }
    lemma_grouped_permutes(s, key, m);
}

/// Regridding keeps the bucket invariant, adds the particle and nothing
/// else, and leaves a rectangle that contains the former one and the
/// particle.
pub proof fn lemma_regridded(g: Grid, p: StaticParticle, margin: int)
    requires
        g.wf(),
        p.pos.within(FIELD as int),
        1 <= margin <= LIMIT,
    ensures
        g.regridded(p, margin).wf(),
        g.regridded(p, margin).particles.to_multiset() == g.particles.to_multiset().insert(p),
        g.regridded(p, margin).particles.len() == g.particles.len() + 1,
        g.regridded(p, margin).extent.covers(g.extent),
        g.regridded(p, margin).extent.holds(p.pos),
{
    let e = g.extent.grown(p.pos, margin);
    let s = g.particles.push(p);
    assert(all_held(s, e)) by {
        assert forall|k: int| 0 <= k < s.len() implies (#[trigger] s[k]).pos.within(FIELD as int)
            && e.holds(s[k].pos) by {
            if k < s.len() - 1 {
                assert(s[k] == g.particles[k]);
            }
        }
    }
    lemma_grouped_bucketed(s, e, g.count);
    to_multiset_build(g.particles, p);
}

/// Inserting a particle keeps the bucket invariant and the cell count,
/// adds the particle and nothing else, and never shrinks the rectangle,
/// which afterwards holds the particle.
pub proof fn lemma_inserted(g: Grid, p: StaticParticle, inner: int, outer: int)
    requires
        g.wf(),
        p.pos.within(FIELD as int),
        1 <= outer <= LIMIT,
    ensures
        g.inserted(p, inner, outer).wf(),
        g.inserted(p, inner, outer).count == g.count,
        g.inserted(p, inner, outer).particles.to_multiset() == g.particles.to_multiset().insert(p),
        g.inserted(p, inner, outer).particles.len() == g.particles.len() + 1,
        g.inserted(p, inner, outer).extent.covers(g.extent),
        g.inserted(p, inner, outer).extent.holds(p.pos),
{
    if g.regrids(p.pos, inner) {
        lemma_regridded(g, p, outer);
    } else {
        lemma_placed(g, p);
        lemma_cell_of(g.extent, g.count, p.pos);
    }
}

/// After any sequence of insertions the bucket invariant holds, the
/// rectangle contains the one it started from and every inserted particle,
/// and the index holds what it held before and the inserted particles,
/// nothing else.
pub proof fn lemma_inserted_all(g: Grid, ps: Seq<StaticParticle>, inner: int, outer: int)
    requires
        g.wf(),
        forall|i: int| 0 <= i < ps.len() ==> (#[trigger] ps[i]).pos.within(FIELD as int),
        1 <= outer <= LIMIT,
    ensures
        g.inserted_all(ps, inner, outer).wf(),
        g.inserted_all(ps, inner, outer).count == g.count,
        g.inserted_all(ps, inner, outer).extent.covers(g.extent),
        forall|i: int|
            0 <= i < ps.len() ==> g.inserted_all(ps, inner, outer).extent.holds(
                (#[trigger] ps[i]).pos,
            ),
        g.inserted_all(ps, inner, outer).particles.to_multiset() == g.particles.to_multiset().add(
            ps.to_multiset(),
        ),
        g.inserted_all(ps, inner, outer).particles.len() == g.particles.len() + ps.len(),
    decreases ps.len(),
{
    broadcast use vstd::multiset::group_multiset_axioms;

    if ps.len() == 0 {
        ps.to_multiset_ensures();
        assert(ps.to_multiset().len() == 0);
        assert(g.particles.to_multiset().add(ps.to_multiset()) =~= g.particles.to_multiset());
    } else {
        let head = ps.drop_last();
        let mid = g.inserted_all(head, inner, outer);
        assert forall|i: int| 0 <= i < head.len() implies (#[trigger] head[i]).pos.within(
            FIELD as int,
        ) by {
            assert(head[i] == ps[i]);
        }
        lemma_inserted_all(g, head, inner, outer);
        assert(ps.last() == ps[ps.len() - 1]);
        lemma_inserted(mid, ps.last(), inner, outer);
        let r = mid.inserted(ps.last(), inner, outer);
        assert forall|i: int| 0 <= i < ps.len() implies r.extent.holds((#[trigger] ps[i]).pos) by {
            if i < head.len() {
                assert(head[i] == ps[i]);
                assert(mid.extent.holds(head[i].pos));
            }
        }
        to_multiset_build(head, ps.last());
        assert(head.push(ps.last()) =~= ps);
        assert(g.particles.to_multiset().add(head.to_multiset()).insert(ps.last())
            =~= g.particles.to_multiset().add(ps.to_multiset()));
    }
}

/// Containing is transitive: a rectangle that grew twice contains the one
/// it started from.
pub proof fn lemma_covers_transitive(a: Extent, b: Extent, c: Extent)
    requires
        a.covers(b),
        b.covers(c),
    ensures
        a.covers(c),
{
}

/// The empty index satisfies the bucket invariant.
pub proof fn lemma_empty_wf(count: int)
    requires
        1 <= count <= MAX_BIN_COUNT,
    ensures
        Grid::empty(count).wf(),
{
    assert(0 <= count * count) by (nonlinear_arith)
        requires
            1 <= count,
    ;
}

/// Every particle is found by its own cell: it stands in the run of the
/// cell that its position maps to.
pub proof fn lemma_bucket_of(g: Grid, k: int) -> (c: int)
    requires
        g.wf(),
        0 <= k < g.particles.len(),
    ensures
        0 <= c < g.cells(),
        in_run(g.offsets, c, k),
        g.cell(g.particles[k].pos) == Some(c as usize),
{
    assert(0 < g.cells()) by (nonlinear_arith)
        requires
            g.cells() == g.count * g.count,
            1 <= g.count,
    ;
    let c = lemma_find_run(g.offsets, k, 0, g.cells());
    assert(in_run(g.offsets, c, k));
    c
}

/// Between two offsets that bracket `k` there is a run that holds `k`.
proof fn lemma_find_run(offsets: Seq<int>, k: int, lo: int, hi: int) -> (c: int)
    requires
        lo < hi,
        offsets[lo] <= k < offsets[hi],
    ensures
        lo <= c < hi,
        offsets[c] <= k < offsets[c + 1],
    decreases hi - lo,
{
    if offsets[hi - 1] <= k {
        hi - 1
    } else {
        lemma_find_run(offsets, k, lo, hi - 1)
    }
}

/// What `first_hit` reports overlaps, and nothing before it in the range
/// does; where it reports nothing, nothing in the range overlaps.
pub proof fn lemma_first_hit(
    particles: Seq<StaticParticle>,
    lo: int,
    hi: int,
    pos: Vector,
    radius: int,
)
    ensures
        match first_hit(particles, lo, hi, pos, radius) {
            Some(i) => lo <= i < hi && overlaps(pos, particles[i].pos, radius) && forall|j: int|
                lo <= j < i ==> !overlaps(pos, (#[trigger] particles[j]).pos, radius),
            None => forall|j: int|
                lo <= j < hi ==> !overlaps(pos, (#[trigger] particles[j]).pos, radius),
        },
    decreases hi - lo,
{
    if lo < hi && !overlaps(pos, particles[lo].pos, radius) {
        lemma_first_hit(particles, lo + 1, hi, pos, radius);
    }
}

/// What the scan of a cell's run reports is a particle of the index that
/// overlaps.
pub proof fn lemma_run_hit_sound(g: Grid, c: int, pos: Vector, radius: int)
    requires
        g.wf(),
        0 <= c < g.cells(),
    ensures
        g.run_hit(c, pos, radius).is_some() ==> {
            let i = g.run_hit(c, pos, radius).unwrap();
            in_run(g.offsets, c, i) && 0 <= i < g.particles.len() && overlaps(
                pos,
                g.particles[i].pos,
                radius,
            )
        },
{
    lemma_first_hit(g.particles, g.offsets[c], g.offsets[c + 1], pos, radius);
    assert(g.offsets[0] <= g.offsets[c]);
    assert(g.offsets[c + 1] <= g.offsets[g.cells()]);
}

/// What the probes report is a particle of the index that overlaps.
pub proof fn lemma_probe_hit_sound(g: Grid, pos: Vector, radius: int, home: usize, k: int)
    requires
        g.wf(),
        0 <= k,
    ensures
        g.probe_hit(pos, radius, home, k).is_some() ==> {
            let i = g.probe_hit(pos, radius, home, k).unwrap();
            0 <= i < g.particles.len() && overlaps(pos, g.particles[i].pos, radius)
        },
    decreases 9 - k,
{
    if k < 9 {
        let at = probe(pos, radius, k);
        lemma_cell_of(g.extent, g.count, at);
        match g.cell(at) {
            Some(c) => {
                lemma_run_hit_sound(g, c as int, pos, radius);
            },
            None => {},
        }
        lemma_probe_hit_sound(g, pos, radius, home, k + 1);
    }
}

/// A query never reports a particle that does not overlap: what it
/// reports is a particle of the index within two radii of the query point.
pub proof fn lemma_hit_sound(g: Grid, pos: Vector, radius: int)
    requires
        g.wf(),
    ensures
        g.hit_index(pos, radius).is_some() ==> {
            let i = g.hit_index(pos, radius).unwrap();
            0 <= i < g.particles.len() && overlaps(pos, g.particles[i].pos, radius)
        },
        g.colliding(pos, radius).is_some() ==> g.particles.contains(
            g.colliding(pos, radius).unwrap(),
        ) && overlaps(pos, g.colliding(pos, radius).unwrap().pos, radius),
{
    lemma_cell_of(g.extent, g.count, pos);
    match g.cell(pos) {
        Some(home) => {
            lemma_run_hit_sound(g, home as int, pos, radius);
            lemma_probe_hit_sound(g, pos, radius, home, 0);
        },
        None => {},
    }
}

/// Where probe `t` lands in a cell other than `home` whose run holds an
/// overlapping particle, the probes from `k <= t` on report a particle.
proof fn lemma_probe_hit_complete(
    g: Grid,
    pos: Vector,
    radius: int,
    home: usize,
    k: int,
    t: int,
    j: int,
)
    requires
        g.wf(),
        0 <= k <= t < 9,
        g.cell(probe(pos, radius, t)).is_some(),
        g.cell(probe(pos, radius, t)).unwrap() != home,
        in_run(g.offsets, g.cell(probe(pos, radius, t)).unwrap() as int, j),
        overlaps(pos, g.particles[j].pos, radius),
    ensures
        g.probe_hit(pos, radius, home, k).is_some(),
    decreases t - k,
{
    if k == t {
        let c = g.cell(probe(pos, radius, t)).unwrap() as int;
        lemma_first_hit(g.particles, g.offsets[c], g.offsets[c + 1], pos, radius);
    } else {
        lemma_probe_hit_complete(g, pos, radius, home, k + 1, t, j);
    }
}

/// A query finds an overlap in every cell it looks at: where a particle of
/// the index overlaps the query point and lies in the cell of the query
/// point or of one of its probe points, the query reports a particle.
pub proof fn lemma_hit_complete(g: Grid, pos: Vector, radius: int, j: int, t: int)
    requires
        g.wf(),
        0 <= j < g.particles.len(),
        overlaps(pos, g.particles[j].pos, radius),
        g.cell(pos).is_some(),
        0 <= t < 9,
        g.cell(g.particles[j].pos) == g.cell(probe(pos, radius, t)),
    ensures
        g.hit_index(pos, radius).is_some(),
        g.colliding(pos, radius).is_some(),
{
    let c = lemma_bucket_of(g, j);
    let home = g.cell(pos).unwrap();
    assert(g.cells() <= 1024 * 1024) by (nonlinear_arith)
        requires
            g.cells() == g.count * g.count,
            1 <= g.count <= 1024,
    ;
    assert(c as usize as int == c);
    lemma_first_hit(g.particles, g.offsets[c], g.offsets[c + 1], pos, radius);
    if c != home {
        assert(g.cell(probe(pos, radius, t)) == Some(c as usize));
        lemma_probe_hit_complete(g, pos, radius, home, 0, t, j);
    }
}

/// Probe 4 is the query point itself.
pub proof fn lemma_probe_centre(pos: Vector, radius: int)
    ensures
        probe(pos, radius, 4) == pos,
{
    assert(0 * radius == 0) by (nonlinear_arith);
}

} // verus!
