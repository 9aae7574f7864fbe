//! The advection step: density carried along the velocity field by tracing
//! each cell back one time step and sampling there bilinearly.
use vstd::prelude::*;

use crate::fixed::{ONE, lemma_lerp_zero, lerp, lerp_exec, one};
use crate::grid::{
    Cell, Grid, Vec2, cell_at, cells_wf, index, index_of, lemma_coords, sides_ok, wrap_next,
};

verus! {

/// Number of in-place transport passes of one advection step.
pub const ADVECT_PASSES: usize = 5;

/// Position, in raw fixed-point grid units, one time step `dt` upstream of
/// coordinate `p` under velocity component `v`.
pub open spec fn backtrace(p: int, v: int, dt: int) -> int {
    p * one() - (v * dt) / one()
}

pub open spec fn density_at(cells: Seq<Cell>, w: int, x: int, y: int) -> int {
    cell_at(cells, w, x, y).density as int
}

/// Density sampled at the fixed-point position (`fx`, `fy`). The cell
/// `(ix, iy)` under the position is found by flooring and wrapping; the
/// fractions `jx`, `jy` weigh it against its wrapped east and south
/// neighbours. The second row sample runs from `(ix, iy + 1)` back to
/// `(ix, iy)`, the lattice orientation of this simulation.
pub open spec fn sample(cells: Seq<Cell>, w: int, h: int, fx: int, fy: int) -> int {
    let ix = (fx / one()) % w;
    let iy = (fy / one()) % h;
    let jx = fx % one();
    let jy = fy % one();
    let d00 = density_at(cells, w, ix, iy);
    let d10 = density_at(cells, w, wrap_next(ix, w), iy);
    let d01 = density_at(cells, w, ix, wrap_next(iy, h));
    lerp(lerp(d00, d10, jx), lerp(d01, d00, jx), jy)
}

/// Cell `i` of `work` with its density replaced by the density found where
/// its own velocity traces it back to.
pub open spec fn advected_cell(work: Seq<Cell>, w: int, h: int, i: int, dt: int) -> Cell {
    let c = work[i];
    Cell {
        velocity: c.velocity,
        density: sample(
            work,
            w,
            h,
            backtrace(i % w, c.velocity.x as int, dt),
            backtrace(i / w, c.velocity.y as int, dt),
        ) as i32,
    }
}

/// `work` after its first `n` cells, in raster order, have been transported
/// in place.
pub open spec fn advect_pass(work: Seq<Cell>, w: int, h: int, dt: int, n: nat) -> Seq<Cell>
    decreases n,
{
    if n == 0 {
        work
    } else {
        let prev = advect_pass(work, w, h, dt, (n - 1) as nat);
        prev.update(n - 1, advected_cell(prev, w, h, n - 1, dt))
    }
}

/// `cells` after `m` full passes.
pub open spec fn advect_passes(cells: Seq<Cell>, w: int, h: int, dt: int, m: nat) -> Seq<Cell>
    decreases m,
{
    if m == 0 {
        cells
    } else {
        advect_pass(advect_passes(cells, w, h, dt, (m - 1) as nat), w, h, dt, (w * h) as nat)
    }
}

/// What one advection step of length `dt` makes of `cells`.
pub open spec fn advected(cells: Seq<Cell>, w: int, h: int, dt: int) -> Seq<Cell> {
    advect_passes(cells, w, h, dt, ADVECT_PASSES as nat)
}

pub proof fn lemma_advect_pass_len(work: Seq<Cell>, w: int, h: int, dt: int, n: nat)
    requires
        n <= work.len(),
    ensures
        advect_pass(work, w, h, dt, n).len() == work.len(),
    decreases n,
{
    if n > 0 {
        lemma_advect_pass_len(work, w, h, dt, (n - 1) as nat);
    }
}

/// Floor of `f / ONE` wrapped onto a ring of `n`, and the fraction `f % ONE`.
fn split_coord(f: i64, n: usize) -> (r: (usize, i64))
    requires
        1 <= n <= 0x7fff_ffff,
    ensures
        r.0 == ((f as int) / one()) % (n as int),
        r.0 < n,
        r.1 == (f as int) % one(),
        0 <= r.1 < one(),
{
    let q: i64 = match f.checked_div_euclid(ONE as i64) {
        Some(q) => q,
        None => 0,
    };
    let j: i64 = match f.checked_rem_euclid(ONE as i64) {
        Some(j) => j,
        None => 0,
    };
    let i: i64 = match q.checked_rem_euclid(n as i64) {
        Some(i) => i,
        None => 0,
    };
    (i as usize, j)
}

/// `sample` over a cell sequence.
pub fn sample_at(cells: &Vec<Cell>, w: usize, h: usize, fx: i64, fy: i64) -> (r: i32)
    requires
        cells_wf(cells@, w as int, h as int),
    ensures
        r == sample(cells@, w as int, h as int, fx as int, fy as int),
{
    let (ix, jx) = split_coord(fx, w);
    let (iy, jy) = split_coord(fy, h);
    let ixn = (ix + 1) % w;
    let iyn = (iy + 1) % h;
    let d00 = cells[index(w, h, ix, iy)].density;
    let d10 = cells[index(w, h, ixn, iy)].density;
    let d01 = cells[index(w, h, ix, iyn)].density;
    let z1 = lerp_exec(d00, d10, jx);
    let z2 = lerp_exec(d01, d00, jx);
    lerp_exec(z1, z2, jy)
}

/// `backtrace` in machine integers.
fn backtrace_exec(p: usize, v: i32, dt: u32) -> (r: i64)
    requires
        p < 0x1_0000,
    ensures
        r == backtrace(p as int, v as int, dt as int),
{
    assert(-0x8000_0000 * 0xffff_ffff <= v * dt <= 0x7fff_ffff * 0xffff_ffff) by (nonlinear_arith)
        requires -0x8000_0000 <= v <= 0x7fff_ffff, 0 <= dt <= 0xffff_ffff;
    let pv: i64 = v as i64 * dt as i64;
    let shift: i64 = match pv.checked_div_euclid(ONE as i64) {
        Some(s) => s,
        None => 0,
    };
    proof {
        vstd::arithmetic::div_mod::lemma_fundamental_div_mod(pv as int, one());
    }
    (p as i64) * (ONE as i64) - shift
}

proof fn lemma_at_rest(work: Seq<Cell>, w: int, h: int, i: int, dt: int)
    requires
        cells_wf(work, w, h),
        0 <= i < work.len(),
        work[i].velocity == (Vec2 { x: 0, y: 0 }),
    ensures
        advected_cell(work, w, h, i, dt) == work[i],
{
    lemma_coords(w, h, i);
    let x = i % w;
    let y = i / w;
    assert(0 * dt == 0);
    assert(backtrace(x, 0, dt) == x * one());
    assert(backtrace(y, 0, dt) == y * one());
    vstd::arithmetic::div_mod::lemma_div_multiples_vanish(x, one());
    vstd::arithmetic::div_mod::lemma_div_multiples_vanish(y, one());
    vstd::arithmetic::div_mod::lemma_mod_multiples_basic(x, one());
    vstd::arithmetic::div_mod::lemma_mod_multiples_basic(y, one());
    assert(one() * x == x * one()) by (nonlinear_arith);
    assert(one() * y == y * one()) by (nonlinear_arith);
    vstd::arithmetic::div_mod::lemma_small_mod(x as nat, w as nat);
    vstd::arithmetic::div_mod::lemma_small_mod(y as nat, h as nat);
    let d00 = density_at(work, w, x, y);
    let d10 = density_at(work, w, wrap_next(x, w), y);
    let d01 = density_at(work, w, x, wrap_next(y, h));
    lemma_lerp_zero(d00, d10);
    lemma_lerp_zero(d01, d00);
    lemma_lerp_zero(d00, d01);
    assert(sample(work, w, h, x * one(), y * one()) == d00);
}

proof fn lemma_pass_at_rest(work: Seq<Cell>, w: int, h: int, dt: int, n: nat)
    requires
        cells_wf(work, w, h),
        n <= work.len(),
        forall|i: int| 0 <= i < work.len() ==> (#[trigger] work[i]).velocity == (Vec2 { x: 0, y: 0 }),
    ensures
        advect_pass(work, w, h, dt, n) == work,
    decreases n,
{
    if n > 0 {
        lemma_pass_at_rest(work, w, h, dt, (n - 1) as nat);
        lemma_at_rest(work, w, h, n - 1, dt);
        assert(work.update(n - 1, work[n - 1]) =~= work);
    }
}

proof fn lemma_passes_at_rest(cells: Seq<Cell>, w: int, h: int, dt: int, m: nat)
    requires
        cells_wf(cells, w, h),
        forall|i: int| 0 <= i < cells.len() ==> (#[trigger] cells[i]).velocity == (Vec2 { x: 0, y: 0 }),
    ensures
        advect_passes(cells, w, h, dt, m) == cells,
    decreases m,
{
    if m > 0 {
        lemma_passes_at_rest(cells, w, h, dt, (m - 1) as nat);
        lemma_pass_at_rest(cells, w, h, dt, (w * h) as nat);
    }
}

/// Where every velocity is zero each cell traces back to itself, so an
/// advection step of any length leaves every cell unchanged.
pub proof fn lemma_advect_at_rest(cells: Seq<Cell>, w: int, h: int, dt: u32)
    requires
        cells_wf(cells, w, h),
        forall|i: int| 0 <= i < cells.len() ==> (#[trigger] cells[i]).velocity == (Vec2 { x: 0, y: 0 }),
    ensures
        advected(cells, w, h, dt as int) == cells,
{
    lemma_passes_at_rest(cells, w, h, dt as int, ADVECT_PASSES as nat);
}

/// Density that grows linearly along each row, `base + slope * x`, and is the
/// same down each column, is sampled exactly (rounded down) at a position
/// between two cells of a row: the result is `base + slope * fx / ONE`. The
/// position has no fractional row offset, and its two cells do not straddle
/// the wrap-around seam.
pub proof fn lemma_sample_linear_along_x(cells: Seq<Cell>, w: int, h: int, fx: int, fy: int, base: int, slope: int)
    requires
        cells_wf(cells, w, h),
        forall|x: int, y: int| 0 <= x < w && 0 <= y < h ==> #[trigger] density_at(cells, w, x, y) == base + slope * x,
        0 <= fx,
        fx / one() + 1 < w,
        0 <= fy,
        fy % one() == 0,
    ensures
        sample(cells, w, h, fx, fy) == (base * one() + slope * fx) / one(),
{
    let ix = fx / one();
    let jx = fx % one();
    vstd::arithmetic::div_mod::lemma_fundamental_div_mod(fx, one());
    vstd::arithmetic::div_mod::lemma_div_pos_is_pos(fx, one());
    vstd::arithmetic::div_mod::lemma_div_pos_is_pos(fy, one());
    vstd::arithmetic::div_mod::lemma_small_mod(ix as nat, w as nat);
    vstd::arithmetic::div_mod::lemma_small_mod((ix + 1) as nat, w as nat);
    let iy = (fy / one()) % h;
    vstd::arithmetic::div_mod::lemma_mod_pos_bound(fy / one(), h);
    vstd::arithmetic::div_mod::lemma_mod_pos_bound(iy + 1, h);
    let d00 = density_at(cells, w, ix, iy);
    let d10 = density_at(cells, w, ix + 1, iy);
    let d01 = density_at(cells, w, ix, wrap_next(iy, h));
    assert(d00 == base + slope * ix);
    assert(d10 == base + slope * (ix + 1));
    assert(d01 == base + slope * ix);
    assert(d10 - d00 == slope) by (nonlinear_arith)
        requires d00 == base + slope * ix, d10 == base + slope * (ix + 1);
    let z1 = lerp(d00, d10, jx);
    assert(jx * (d10 - d00) == slope * jx) by (nonlinear_arith)
        requires d10 - d00 == slope;
    assert(z1 == d00 + (slope * jx) / one());
    assert(lerp(d01, d00, jx) == d00) by {
        assert(jx * (d00 - d01) == 0);
    }
    assert(lerp(z1, d00, fy % one()) == z1) by {
        lemma_lerp_zero(z1, d00);
    }
    assert(slope * jx + d00 * one() == base * one() + slope * fx) by (nonlinear_arith)
        requires d00 == base + slope * ix, fx == one() * ix + jx;
    vstd::arithmetic::div_mod::lemma_hoist_over_denominator(slope * jx, d00, one() as nat);
}

/// Density that grows linearly down each column, `base + slope * y`, and is
/// the same along each row, is sampled exactly (rounded down) at a position
/// between two cells of a column: the result is `base + slope * fy / ONE`. The
/// position has no fractional column offset, and its two cells do not
/// straddle the wrap-around seam.
pub proof fn lemma_sample_linear_along_y(cells: Seq<Cell>, w: int, h: int, fx: int, fy: int, base: int, slope: int)
    requires
        cells_wf(cells, w, h),
        forall|x: int, y: int| 0 <= x < w && 0 <= y < h ==> #[trigger] density_at(cells, w, x, y) == base + slope * y,
        0 <= fy,
        fy / one() + 1 < h,
        0 <= fx,
        fx % one() == 0,
    ensures
        sample(cells, w, h, fx, fy) == (base * one() + slope * fy) / one(),
{
    let iy = fy / one();
    let jy = fy % one();
    vstd::arithmetic::div_mod::lemma_fundamental_div_mod(fy, one());
    vstd::arithmetic::div_mod::lemma_div_pos_is_pos(fy, one());
    vstd::arithmetic::div_mod::lemma_div_pos_is_pos(fx, one());
    vstd::arithmetic::div_mod::lemma_small_mod(iy as nat, h as nat);
    vstd::arithmetic::div_mod::lemma_small_mod((iy + 1) as nat, h as nat);
    let ix = (fx / one()) % w;
    vstd::arithmetic::div_mod::lemma_mod_pos_bound(fx / one(), w);
    vstd::arithmetic::div_mod::lemma_mod_pos_bound(ix + 1, w);
    let d00 = density_at(cells, w, ix, iy);
    let d10 = density_at(cells, w, wrap_next(ix, w), iy);
    let d01 = density_at(cells, w, ix, iy + 1);
    assert(d00 == base + slope * iy);
    assert(d10 == base + slope * iy);
    assert(d01 == base + slope * (iy + 1));
    assert(d01 - d00 == slope) by (nonlinear_arith)
        requires d00 == base + slope * iy, d01 == base + slope * (iy + 1);
    lemma_lerp_zero(d00, d10);
    lemma_lerp_zero(d01, d00);
    assert(jy * (d01 - d00) == slope * jy) by (nonlinear_arith)
        requires d01 - d00 == slope;
    assert(lerp(d00, d01, jy) == d00 + (slope * jy) / one());
    assert(slope * jy + d00 * one() == base * one() + slope * fy) by (nonlinear_arith)
        requires d00 == base + slope * iy, fy == one() * iy + jy;
    vstd::arithmetic::div_mod::lemma_hoist_over_denominator(slope * jy, d00, one() as nat);
}

impl Grid {
    /// Density sampled bilinearly at the fixed-point position (`fx`, `fy`),
    /// wrapping at both edges.
    pub fn sample_density(&self, fx: i64, fy: i64) -> (r: i32)
        requires
            self.wf(),
        ensures
            r == sample(self.cells@, self.width as int, self.height as int, fx as int, fy as int),
    {
        sample_at(&self.cells, self.width, self.height, fx, fy)
    }

    /// One advection step: `ADVECT_PASSES` in-place passes, each replacing
    /// every cell's density, in raster order, by the density sampled where the
    /// cell's velocity traces it back over `dt`. Velocities are not moved.
    pub fn advect(&mut self, dt: u32)
        requires
            old(self).wf(),
        ensures
            final(self).wf(),
            final(self).width == old(self).width,
            final(self).height == old(self).height,
            final(self).mode == old(self).mode,
            final(self).cells@ == advected(
                old(self).cells@,
                old(self).width as int,
                old(self).height as int,
                dt as int,
            ),
    {
        let w = self.width;
        let h = self.height;
        let n = self.cells.len();
        let mut pass: usize = 0;
        while pass < ADVECT_PASSES
            invariant
                pass <= ADVECT_PASSES,
                w == self.width,
                h == self.height,
                self.mode == old(self).mode,
                sides_ok(w as int, h as int),
                n == w * h,
                self.cells@ == advect_passes(old(self).cells@, w as int, h as int, dt as int, pass as nat),
                self.cells@.len() == n,
            decreases ADVECT_PASSES - pass,
        {
            let ghost start = self.cells@;
            let mut i: usize = 0;
            while i < n
                invariant
                    i <= n,
                    w == self.width,
                    h == self.height,
                    self.mode == old(self).mode,
                    sides_ok(w as int, h as int),
                    n == w * h,
                    start.len() == n,
                    self.cells@ == advect_pass(start, w as int, h as int, dt as int, i as nat),
                    self.cells@.len() == n,
                decreases n - i,
            {
                proof {
                    lemma_coords(w as int, h as int, i as int);
                }
                let c = self.cells[i];
                let fx = backtrace_exec(i % w, c.velocity.x, dt);
                let fy = backtrace_exec(i / w, c.velocity.y, dt);
                let d = sample_at(&self.cells, w, h, fx, fy);
                self.cells.set(i, Cell { velocity: c.velocity, density: d });
                proof {
                    lemma_advect_pass_len(start, w as int, h as int, dt as int, i as nat);
                }
                i += 1;
            }
            pass += 1;
        }
    }
}

} // verus!
