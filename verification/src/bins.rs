//! The spatial index of the frozen particles: a square grid over a
//! rectangle that grows with the aggregate, the particles kept in one
//! vector ordered by cell, with a table of where each cell's run starts.

use crate::config::{Globals, MAX_BIN_COUNT, MAX_RADIUS};
use crate::geometry::{Vector, LIMIT, SPAN};
use crate::grid::{
    all_held, axis_cell, cell_key, cell_of, first_hit, lemma_axis_cell_range, lemma_cell_of,
    lemma_empty_wf, lemma_inserted, lemma_placed, probe, Extent, Grid, GRID,
};
use crate::grouping::{grouped, with_key};
use crate::particle::{overlaps, DynamicParticle, StaticParticle, FIELD};
use vstd::prelude::*;

verus! {

/// A rectangle by corner and size.
#[derive(Clone, Copy, Debug, PartialEq, Eq, Structural)]
pub struct Rect {
    pub x: i64,
    pub y: i64,
    pub w: i64,
    pub h: i64,
}

/// The grid column (or row) of `p`, or nothing outside `[lo, hi)`.
fn axis_cell_of(p: i64, lo: i64, hi: i64, count: usize) -> (r: Option<u64>)
    requires
        -SPAN <= p <= SPAN,
        -GRID <= lo <= GRID,
        -GRID <= hi <= GRID,
        1 <= count <= MAX_BIN_COUNT,
    ensures
        match r {
            Some(c) => axis_cell(p as int, lo as int, hi as int, count as int) == Some(c as int)
                && c < count,
            None => axis_cell(p as int, lo as int, hi as int, count as int).is_none(),
        },
{
    if lo <= p && p < hi {
        let a: u64 = (p - lo) as u64;
        let d: u64 = (hi - lo) as u64;
        let n: u64 = count as u64;
        proof {
            lemma_axis_cell_range(p as int, lo as int, hi as int, count as int);
            assert(a * n <= 0x2_0000_0000 * 1024) by (nonlinear_arith)
                requires
                    a <= 0x2_0000_0000,
                    n <= 1024,
            ;
        }
        Some(a * n / d)
    } else {
        None
    }
}

/// Sorts the particles into one run per cell of the grid of `n` by `n`
/// cells over `e`, each run in the order of `particles`.
fn distribute(particles: &Vec<StaticParticle>, e: Extent, n: usize) -> (runs: Vec<
    Vec<StaticParticle>,
>)
    requires
        1 <= n <= MAX_BIN_COUNT,
        e.bounded(),
        all_held(particles@, e),
    ensures
        runs.len() == n * n,
        forall|c: int|
            0 <= c < n * n ==> (#[trigger] runs[c])@ == particles@.filter(
                with_key(cell_key(e, n as int), c),
            ),
{
    assert(n * n <= 1024 * 1024) by (nonlinear_arith)
        requires
            n <= 1024,
    ;
    let cells: usize = n * n;
    let ghost s = particles@;
    let ghost key = cell_key(e, n as int);
    let mut runs: Vec<Vec<StaticParticle>> = Vec::new();
    let mut b: usize = 0;
    while b < cells
        invariant
            b <= cells,
            runs.len() == b,
            forall|c: int| 0 <= c < b ==> (#[trigger] runs[c])@ == Seq::<StaticParticle>::empty(),
        decreases cells - b,
    {
        runs.push(Vec::new());
        b += 1;
    }
    let count: usize = particles.len();
    let mut i: usize = 0;
    proof {
        reveal(Seq::filter);
        assert(s.take(0) =~= Seq::<StaticParticle>::empty());
    }
    while i < count
        invariant
            i <= count,
            count == s.len(),
            particles@ == s,
            e.bounded(),
            1 <= n <= MAX_BIN_COUNT,
            cells == n * n,
            key == cell_key(e, n as int),
            runs.len() == cells,
            all_held(s, e),
            forall|c: int|
                0 <= c < cells ==> (#[trigger] runs[c])@ == s.take(i as int).filter(
                    with_key(key, c),
                ),
        decreases count - i,
    {
        let q: StaticParticle = particles[i];
        assert(s[i as int].pos.within(FIELD as int) && e.holds(s[i as int].pos));
        let found = Bins::get_bin_static(e.xmin, e.xmax, e.ymin, e.ymax, q.pos, n);
        let c: usize = found.unwrap();
        let ghost earlier = runs@;
        runs[c].push(q);
        proof {
            reveal(Seq::filter);
            let t = s.take(i as int + 1);
            assert(t.drop_last() =~= s.take(i as int));
            assert(t.last() == q);
            assert(key(q) == c as int);
            assert forall|d: int| 0 <= d < cells implies (#[trigger] runs[d])@ == t.filter(
                with_key(key, d),
            ) by {
                if d != c {
                    assert(runs[d] == earlier[d]);
                    assert(!with_key(key, d)(q));
                } else {
                    assert(with_key(key, d)(q));
                }
            }
        }
        i += 1;
    }
    proof {
        assert(s.take(count as int) =~= s);
    }
    runs
}

/// Lays the runs end to end and records in `offsets` where each starts.
fn gather(
    runs: &Vec<Vec<StaticParticle>>,
    offsets: &mut Vec<usize>,
    Ghost(s): Ghost<Seq<StaticParticle>>,
    Ghost(key): Ghost<spec_fn(StaticParticle) -> int>,
) -> (out: Vec<StaticParticle>)
    requires
        old(offsets).len() == runs.len() + 1,
        forall|c: int| 0 <= c < runs.len() ==> (#[trigger] runs[c])@ == s.filter(with_key(key, c)),
    ensures
        final(offsets).len() == old(offsets).len(),
        out@ == grouped(s, key, runs.len() as int),
        forall|c: int|
            0 <= c <= runs.len() ==> #[trigger] final(offsets)[c] == grouped(s, key, c).len(),
{
    let cells: usize = runs.len();
    let mut out: Vec<StaticParticle> = Vec::new();
    offsets.set(0, 0);
    let mut c: usize = 0;
    while c < cells
        invariant
            c <= cells,
            cells == runs.len(),
            offsets.len() == cells + 1,
            out@ == grouped(s, key, c as int),
            forall|d: int| 0 <= d <= c ==> #[trigger] offsets[d] == grouped(s, key, d).len(),
            forall|d: int| 0 <= d < cells ==> (#[trigger] runs[d])@ == s.filter(with_key(key, d)),
        decreases cells - c,
    {
        let run: &Vec<StaticParticle> = &runs[c];
        let ghost start = out@;
        let mut j: usize = 0;
        while j < run.len()
            invariant
                j <= run.len(),
                out@ == start + run@.take(j as int),
            decreases run.len() - j,
        {
            out.push(run[j]);
            proof {
                assert(run@.take(j as int + 1) =~= run@.take(j as int).push(run@[j as int]));
            }
            j += 1;
        }
        proof {
            assert(run@.take(j as int) =~= run@);
        }
        c += 1;
        offsets.set(c, out.len());
    }
    out
}

/// The frozen particles, bucketed by grid cell.
pub struct Bins {
    particles: Vec<StaticParticle>,
    bins: Vec<usize>,
    count: usize,
    xmin: i64,
    xmax: i64,
    ymin: i64,
    ymax: i64,
}

impl View for Bins {
    type V = Grid;

    /// The state of the index.
    closed spec fn view(&self) -> Grid {
        Grid {
            particles: self.particles@,
            offsets: self.bins@.map_values(|v: usize| v as int),
            extent: Extent { xmin: self.xmin, xmax: self.xmax, ymin: self.ymin, ymax: self.ymax },
            count: self.count as int,
        }
    }
}

impl Bins {
    /// The bucket invariant holds of this index.
    pub open spec fn wf(self) -> bool {
        self@.wf()
    }

    /// An empty index of `globals.bin_count` cells a side over the empty
    /// rectangle at the origin.
    pub fn new(globals: &Globals) -> (r: Bins)
        requires
            1 <= globals.bin_count <= MAX_BIN_COUNT,
        ensures
            r.wf(),
            r@ == Grid::empty(globals.bin_count as int),
    {
        let n: usize = globals.bin_count;
        assert(n * n + 1 <= 1024 * 1024 + 1) by (nonlinear_arith)
            requires
                n <= 1024,
        ;
        let total: usize = n * n + 1;
        let mut bins: Vec<usize> = Vec::new();
        let mut i: usize = 0;
        while i < total
            invariant
                i <= total,
                bins.len() == i,
                forall|j: int| 0 <= j < i ==> bins[j] == 0,
            decreases total - i,
        {
            bins.push(0);
            i += 1;
        }
        let r = Bins { particles: Vec::new(), bins, count: n, xmin: 0, xmax: 0, ymin: 0, ymax: 0 };
        proof {
            lemma_empty_wf(n as int);
            assert(r@.offsets =~= Grid::empty(n as int).offsets);
        }
        r
    }

    /// Puts `p` at the start of the run of its cell `c` and moves the later
    /// runs up by one.
    fn insert_in_place(&mut self, p: StaticParticle, c: usize)
        requires
            old(self).wf(),
            p.pos.within(FIELD as int),
            old(self)@.cell(p.pos) == Some(c),
        ensures
            final(self)@ == old(self)@.placed(p),
    {
        proof {
            lemma_cell_of(self@.extent, self.count as int, p.pos);
            lemma_placed(self@, p);
        }
        let ghost before = self.bins@;
        let ghost held = self.particles@;
        let at: usize = self.bins[c];
        proof {
            assert forall|j: int| 0 <= j < before.len() implies #[trigger] before[j]
                <= held.len() by {
                assert(self@.offsets[j] <= self@.offsets[self@.cells()]);
            }
        }
        self.particles.insert(at, p);
        let total: usize = self.bins.len();
        let longer: usize = self.particles.len();
        let mut i: usize = c + 1;
        while i < total
            invariant
                c + 1 <= i <= total,
                total == before.len(),
                self.bins.len() == total,
                longer == held.len() + 1,
                forall|j: int| 0 <= j < total ==> #[trigger] before[j] <= held.len(),
                forall|j: int| c < j < i ==> #[trigger] self.bins[j] == before[j] + 1,
                forall|j: int| 0 <= j <= c || i <= j < total ==> #[trigger] self.bins[j] == before[j],
                self.particles@ == held.insert(at as int, p),
                self.count == old(self).count,
                self.xmin == old(self).xmin,
                self.xmax == old(self).xmax,
                self.ymin == old(self).ymin,
                self.ymax == old(self).ymax,
            decreases total - i,
        {
            let v: usize = self.bins[i];
            self.bins.set(i, v + 1);
            i += 1;
        }
        proof {
            assert(self@.offsets =~= old(self)@.placed(p).offsets);
        }
    }

    /// Grows the rectangle to lie `margin` beyond `p`, adds `p`, and
    /// orders all particles anew by their cell in the grown grid.
    fn regrid(&mut self, p: StaticParticle, margin: i64)
        requires
            old(self).wf(),
            p.pos.within(FIELD as int),
            1 <= margin <= LIMIT,
        ensures
            final(self)@ == old(self)@.regridded(p, margin as int),
    {
        let n: usize = self.count;
        if p.pos.x - margin < self.xmin {
            self.xmin = p.pos.x - margin;
        }
        if p.pos.x + margin > self.xmax {
            self.xmax = p.pos.x + margin;
        }
        if p.pos.y - margin < self.ymin {
            self.ymin = p.pos.y - margin;
        }
        if p.pos.y + margin > self.ymax {
            self.ymax = p.pos.y + margin;
        }
        self.particles.push(p);
        let e = Extent { xmin: self.xmin, xmax: self.xmax, ymin: self.ymin, ymax: self.ymax };
        let ghost s = self.particles@;
        assert(e == old(self)@.extent.grown(p.pos, margin as int));
        assert(all_held(s, e)) by {
            assert forall|k: int| 0 <= k < s.len() implies (#[trigger] s[k]).pos.within(
                FIELD as int,
            ) && e.holds(s[k].pos) by {
                if k < s.len() - 1 {
                    assert(s[k] == old(self)@.particles[k]);
                }
            }
        }
        let runs = distribute(&self.particles, e, n);
        let out = gather(&runs, &mut self.bins, Ghost(s), Ghost(cell_key(e, n as int)));
        self.particles = out;
        proof {
            assert(self@.offsets =~= old(self)@.regridded(p, margin as int).offsets);
        }
    }

    /// Adds the frozen particle `p`.
    ///
    /// Where `p` is at least `globals.bin_margin_min` inside every side of
    /// the rectangle, it goes to the start of its cell's run, and the
    /// offsets of all later cells move up by one. Otherwise the rectangle
    /// grows to lie `globals.bin_margin_max` beyond `p` on every side that is
    /// not already farther out, and all particles are ordered anew by their
    /// cell in the grown grid, those of one cell keeping their order.
    pub fn insert(&mut self, p: StaticParticle, globals: &Globals)
        requires
            old(self).wf(),
            p.pos.within(FIELD as int),
            -LIMIT <= globals.bin_margin_min <= LIMIT,
            1 <= globals.bin_margin_max <= LIMIT,
        ensures
            final(self).wf(),
            final(self)@ == old(self)@.inserted(
                p,
                globals.bin_margin_min as int,
                globals.bin_margin_max as int,
            ),
            final(self)@.count == old(self)@.count,
            final(self)@.particles.to_multiset() == old(self)@.particles.to_multiset().insert(p),
            final(self)@.particles.len() == old(self)@.particles.len() + 1,
            final(self)@.extent.covers(old(self)@.extent),
            final(self)@.extent.holds(p.pos),
    {
        let inner: i64 = globals.bin_margin_min;
        let outer: i64 = globals.bin_margin_max;
        let near: bool = p.pos.x < self.xmin + inner || p.pos.x > self.xmax - inner || p.pos.y
            < self.ymin + inner || p.pos.y > self.ymax - inner;
        let home: Option<usize> = if near {
            None
        } else {
            self.get_bin(p.pos)
        };
        proof {
            lemma_inserted(self@, p, inner as int, outer as int);
        }
        match home {
            Some(c) => {
                self.insert_in_place(p, c);
            },
            None => {
                self.regrid(p, outer);
            },
        }
    }

    /// The index of the first particle of cell `c` that `p` collides with.
    fn scan(&self, c: usize, p: &DynamicParticle, globals: &Globals) -> (r: Option<usize>)
        requires
            self.wf(),
            c < self@.cells(),
            p.pos.within(LIMIT as int),
            0 <= globals.particle_r <= MAX_RADIUS,
        ensures
            match r {
                Some(i) => self@.run_hit(c as int, p.pos, globals.particle_r as int) == Some(
                    i as int,
                ) && i < self@.particles.len() && overlaps(
                    p.pos,
                    self@.particles[i as int].pos,
                    globals.particle_r as int,
                ),
                None => self@.run_hit(c as int, p.pos, globals.particle_r as int).is_none(),
            },
    {
        assert(self@.cells() <= 1024 * 1024) by (nonlinear_arith)
            requires
                self@.cells() == self@.count * self@.count,
                1 <= self@.count <= 1024,
        ;
        let lo: usize = self.bins[c];
        let hi: usize = self.bins[c + 1];
        assert(self@.offsets[c as int] <= self@.offsets[c + 1] && self@.offsets[c + 1]
            <= self@.offsets[self@.cells()]);
        let mut i: usize = lo;
        while i < hi
            invariant
                lo <= i <= hi <= self.particles@.len(),
                lo == self@.offsets[c as int],
                hi == self@.offsets[c + 1],
                self.wf(),
                p.pos.within(LIMIT as int),
                0 <= globals.particle_r <= MAX_RADIUS,
                first_hit(self.particles@, lo as int, hi as int, p.pos, globals.particle_r as int)
                    == first_hit(
                    self.particles@,
                    i as int,
                    hi as int,
                    p.pos,
                    globals.particle_r as int,
                ),
            decreases hi - i,
        {
            assert(self@.particles[i as int].pos.within(FIELD as int));
            let touching: bool = p.collides(&self.particles[i], globals);
            assert(first_hit(
                self.particles@,
                i as int,
                hi as int,
                p.pos,
                globals.particle_r as int,
            ) == if touching {
                Some(i as int)
            } else {
                first_hit(self.particles@, i + 1, hi as int, p.pos, globals.particle_r as int)
            });
            if touching {
                return Some(i);
            }
            i += 1;
        }
        None
    }

    /// A frozen particle that `p` touches or overlaps, if the search finds
    /// one.
    ///
    /// The search scans the cell of `p`, then the cells of the eight points
    /// one radius from `p` along the axes and diagonals, in the order of
    /// `probe`, skipping a point outside the rectangle or in the cell of
    /// `p`. It reports the first overlap it meets. A particle outside those
    /// cells is not found, even where it overlaps.
    pub fn get_colliding(&self, p: &DynamicParticle, globals: &Globals) -> (r: Option<
        StaticParticle,
    >)
        requires
            self.wf(),
            p.pos.within(LIMIT as int),
            0 <= globals.particle_r <= MAX_RADIUS,
        ensures
            r == self@.colliding(p.pos, globals.particle_r as int),
            r.is_some() ==> overlaps(p.pos, r.unwrap().pos, globals.particle_r as int)
                && self@.particles.contains(r.unwrap()) && r.unwrap().pos.within(FIELD as int),
    {
        let radius: i64 = globals.particle_r;
        let home: usize = match self.get_bin(p.pos) {
            Some(h) => h,
            None => {
                return None;
            },
        };
        match self.scan(home, p, globals) {
            Some(i) => {
                return Some(self.particles[i]);
            },
            None => {},
        }
        let mut k: usize = 0;
        while k < 9
            invariant
                k <= 9,
                self.wf(),
                home < self@.cells(),
                radius == globals.particle_r,
                p.pos.within(LIMIT as int),
                0 <= globals.particle_r <= MAX_RADIUS,
                self@.probe_hit(p.pos, radius as int, home, 0) == self@.probe_hit(
                    p.pos,
                    radius as int,
                    home,
                    k as int,
                ),
                self@.hit_index(p.pos, radius as int) == self@.probe_hit(
                    p.pos,
                    radius as int,
                    home,
                    0,
                ),
            decreases 9 - k,
        {
            let dx: i64 = (k / 3) as i64 - 1;
            let dy: i64 = (k % 3) as i64 - 1;
            assert(dx * radius == (k as int / 3 - 1) * radius && -MAX_RADIUS <= dx * radius
                <= MAX_RADIUS) by (nonlinear_arith)
                requires
                    dx == k as int / 3 - 1,
                    -1 <= dx <= 1,
                    0 <= radius <= MAX_RADIUS,
            ;
            assert(dy * radius == (k as int % 3 - 1) * radius && -MAX_RADIUS <= dy * radius
                <= MAX_RADIUS) by (nonlinear_arith)
                requires
                    dy == k as int % 3 - 1,
                    -1 <= dy <= 1,
                    0 <= radius <= MAX_RADIUS,
            ;
            let at = Vector { x: p.pos.x + dx * radius, y: p.pos.y + dy * radius };
            assert(at == probe(p.pos, radius as int, k as int));
            match self.get_bin(at) {
                Some(c) => {
                    if c != home {
                        match self.scan(c, p, globals) {
                            Some(i) => {
                                return Some(self.particles[i]);
                            },
                            None => {},
                        }
                    }
                },
                None => {},
            }
            k += 1;
        }
        None
    }

    /// The cell of `pos` in the grid of `count` by `count` cells over the
    /// rectangle with the given sides, or nothing outside it.
    pub fn get_bin_static(
        xmin: i64,
        xmax: i64,
        ymin: i64,
        ymax: i64,
        pos: Vector,
        count: usize,
    ) -> (r: Option<usize>)
        requires
            (Extent { xmin, xmax, ymin, ymax }).bounded(),
            pos.within(SPAN as int),
            1 <= count <= MAX_BIN_COUNT,
        ensures
            r == cell_of(Extent { xmin, xmax, ymin, ymax }, count as int, pos),
            r.is_some() <==> (Extent { xmin, xmax, ymin, ymax }).holds(pos),
            r.is_some() ==> r.unwrap() < count * count,
    {
        proof {
            lemma_cell_of(Extent { xmin, xmax, ymin, ymax }, count as int, pos);
        }
        match axis_cell_of(pos.x, xmin, xmax, count) {
            Some(cx) => match axis_cell_of(pos.y, ymin, ymax, count) {
                Some(cy) => {
                    let n: u64 = count as u64;
                    assert(cx + cy * n < n * n && n * n <= 1024 * 1024) by (nonlinear_arith)
                        requires
                            cx < n,
                            cy < n,
                            n <= 1024,
                    ;
                    Some((cx + cy * n) as usize)
                },
                None => None,
            },
            None => None,
        }
    }

    /// The cell of `pos` in this index, or nothing outside its rectangle.
    pub fn get_bin(&self, pos: Vector) -> (r: Option<usize>)
        requires
            self.wf(),
            pos.within(SPAN as int),
        ensures
            r == self@.cell(pos),
            r.is_some() <==> self@.extent.holds(pos),
            r.is_some() ==> r.unwrap() < self@.cells(),
    {
        Self::get_bin_static(self.xmin, self.xmax, self.ymin, self.ymax, pos, self.count)
    }

    /// The frozen particles, in bucket order.
    pub fn iter(&self) -> (r: &Vec<StaticParticle>)
        ensures
            r@ == self@.particles,
    {
        &self.particles
    }

    /// The number of frozen particles.
    pub fn len(&self) -> (r: usize)
        ensures
            r == self@.particles.len(),
    {
        self.particles.len()
    }

    /// The offset table: entry `c` is the index of the first particle of
    /// cell `c`, the last entry the number of particles.
    pub fn offsets(&self) -> (r: &Vec<usize>)
        ensures
            r@.len() == self@.offsets.len(),
            forall|i: int| 0 <= i < r@.len() ==> #[trigger] r@[i] == self@.offsets[i],
    {
        &self.bins
    }

    /// The indexed rectangle, by corner and size.
    pub fn rect(&self) -> (r: Rect)
        requires
            self.wf(),
        ensures
            r.x == self@.extent.xmin,
            r.y == self@.extent.ymin,
            r.w == self@.extent.xmax - self@.extent.xmin,
            r.h == self@.extent.ymax - self@.extent.ymin,
    {
        Rect { x: self.xmin, y: self.ymin, w: self.xmax - self.xmin, h: self.ymax - self.ymin }
    }

    /// The indexed rectangle, by its sides.
    pub fn bounds(&self) -> (r: Extent)
        ensures
            r == self@.extent,
    {
        Extent { xmin: self.xmin, xmax: self.xmax, ymin: self.ymin, ymax: self.ymax }
    }
}

} // verus!
