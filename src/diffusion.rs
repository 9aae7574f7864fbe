//! The diffusion step: Gauss-Seidel relaxation of every channel toward its
//! neighbour mean.
use vstd::prelude::*;

use crate::fixed::{
    lemma_relax_between, lemma_relax_zero, one, relax, relax_exec, stiffness, stiffness_of,
};
use crate::grid::{
    Cell, Field, Grid, Vec2, cell_at, cells_wf, copy_cells, field_value, index_of, lemma_coords,
    lemma_index_in_bounds, neighbor_sum, neighbor_sum_of, wrap_next, wrap_prev,
};

verus! {

/// Number of relaxation sweeps of one diffusion step.
pub const SWEEPS: usize = 5;

/// Cell `i` relaxed once: each channel of the cell as it stood before the
/// step (`orig`), pulled toward the mean of the same channel over its
/// neighbours in the working copy (`work`) with stiffness `k`.
///
/// Every channel relaxes toward its own value; the velocity's first
/// component is not fed from the second.
pub open spec fn diffused_cell(orig: Seq<Cell>, work: Seq<Cell>, w: int, h: int, i: int, k: int) -> Cell {
    let x = i % w;
    let y = i / w;
    Cell {
        velocity: Vec2 {
            x: relax(orig[i].velocity.x as int, neighbor_sum(work, w, h, x, y, Field::VelocityX), k) as i32,
            y: relax(orig[i].velocity.y as int, neighbor_sum(work, w, h, x, y, Field::VelocityY), k) as i32,
        },
        density: relax(orig[i].density as int, neighbor_sum(work, w, h, x, y, Field::Density), k) as i32,
    }
}

/// The working copy after the first `n` cells of one sweep, in raster
/// order, have been relaxed in place.
pub open spec fn diffuse_pass(orig: Seq<Cell>, work: Seq<Cell>, w: int, h: int, k: int, n: nat) -> Seq<Cell>
    decreases n,
{
    if n == 0 {
        work
    } else {
        let prev = diffuse_pass(orig, work, w, h, k, (n - 1) as nat);
        prev.update(n - 1, diffused_cell(orig, prev, w, h, n - 1, k))
    }
}

/// The cells after `m` full sweeps that start from `cells`.
pub open spec fn diffuse_sweeps(cells: Seq<Cell>, w: int, h: int, k: int, m: nat) -> Seq<Cell>
    decreases m,
{
    if m == 0 {
        cells
    } else {
        diffuse_pass(cells, diffuse_sweeps(cells, w, h, k, (m - 1) as nat), w, h, k, (w * h) as nat)
    }
}

/// What one diffusion step of length `dt` at rate `rate` makes of `cells`.
pub open spec fn diffused(cells: Seq<Cell>, w: int, h: int, dt: int, rate: int) -> Seq<Cell> {
    diffuse_sweeps(cells, w, h, stiffness_of(rate, dt), SWEEPS as nat)
}

pub proof fn lemma_pass_len(orig: Seq<Cell>, work: Seq<Cell>, w: int, h: int, k: int, n: nat)
    requires
        n <= work.len(),
    ensures
        diffuse_pass(orig, work, w, h, k, n).len() == work.len(),
    decreases n,
{
    if n > 0 {
        lemma_pass_len(orig, work, w, h, k, (n - 1) as nat);
    }
}

proof fn lemma_pass_still(cells: Seq<Cell>, w: int, h: int, n: nat)
    requires
        cells_wf(cells, w, h),
        n <= cells.len(),
    ensures
        diffuse_pass(cells, cells, w, h, 0, n) == cells,
    decreases n,
{
    if n > 0 {
        lemma_pass_still(cells, w, h, (n - 1) as nat);
        let i = n - 1;
        let x = i % w;
        let y = i / w;
        let c = cells[i];
        lemma_relax_zero(c.density as int, neighbor_sum(cells, w, h, x, y, Field::Density));
        lemma_relax_zero(c.velocity.x as int, neighbor_sum(cells, w, h, x, y, Field::VelocityX));
        lemma_relax_zero(c.velocity.y as int, neighbor_sum(cells, w, h, x, y, Field::VelocityY));
        assert(diffused_cell(cells, cells, w, h, i, 0) == c);
        assert(cells.update(i, c) =~= cells);
    }
}

/// A diffusion step of zero length, or at a zero rate, leaves every cell's
/// density and velocity exactly as they were.
pub proof fn lemma_diffuse_noop(cells: Seq<Cell>, w: int, h: int, dt: u32, rate: u32)
    requires
        cells_wf(cells, w, h),
        dt == 0 || rate == 0,
    ensures
        diffused(cells, w, h, dt as int, rate as int) == cells,
{
    assert(rate as int * dt as int == 0);
    assert(stiffness_of(rate as int, dt as int) == 0);
    lemma_sweeps_still(cells, w, h, SWEEPS as nat);
}

proof fn lemma_sweeps_still(cells: Seq<Cell>, w: int, h: int, m: nat)
    requires
        cells_wf(cells, w, h),
    ensures
        diffuse_sweeps(cells, w, h, 0, m) == cells,
    decreases m,
{
    if m > 0 {
        lemma_sweeps_still(cells, w, h, (m - 1) as nat);
        lemma_pass_still(cells, w, h, (w * h) as nat);
    }
}

/// Every value of channel `f` in `cells` lies in `lo..=hi`.
pub open spec fn channel_within(cells: Seq<Cell>, f: Field, lo: int, hi: int) -> bool {
    forall|i: int| 0 <= i < cells.len() ==> lo <= #[trigger] field_value(cells[i], f) <= hi
}

proof fn lemma_neighbor_sum_within(cells: Seq<Cell>, w: int, h: int, x: int, y: int, f: Field, lo: int, hi: int)
    requires
        cells_wf(cells, w, h),
        0 <= x < w,
        0 <= y < h,
        channel_within(cells, f, lo, hi),
    ensures
        4 * lo <= neighbor_sum(cells, w, h, x, y, f) <= 4 * hi,
{
    let xp = wrap_prev(x, w);
    let xn = wrap_next(x, w);
    let yp = wrap_prev(y, h);
    let yn = wrap_next(y, h);
    vstd::arithmetic::div_mod::lemma_mod_pos_bound(x + w - 1, w);
    vstd::arithmetic::div_mod::lemma_mod_pos_bound(x + 1, w);
    vstd::arithmetic::div_mod::lemma_mod_pos_bound(y + h - 1, h);
    vstd::arithmetic::div_mod::lemma_mod_pos_bound(y + 1, h);
    lemma_index_in_bounds(w, h, xp, y);
    lemma_index_in_bounds(w, h, xn, y);
    lemma_index_in_bounds(w, h, x, yp);
    lemma_index_in_bounds(w, h, x, yn);
    assert(lo <= field_value(cells[index_of(w, xp, y)], f) <= hi);
    assert(lo <= field_value(cells[index_of(w, xn, y)], f) <= hi);
    assert(lo <= field_value(cells[index_of(w, x, yp)], f) <= hi);
    assert(lo <= field_value(cells[index_of(w, x, yn)], f) <= hi);
}

proof fn lemma_pass_within(
    orig: Seq<Cell>,
    work: Seq<Cell>,
    w: int,
    h: int,
    k: int,
    n: nat,
    f: Field,
    lo: int,
    hi: int,
)
    requires
        cells_wf(orig, w, h),
        work.len() == orig.len(),
        k >= 0,
        n <= orig.len(),
        channel_within(orig, f, lo, hi),
        channel_within(work, f, lo, hi),
    ensures
        diffuse_pass(orig, work, w, h, k, n).len() == orig.len(),
        channel_within(diffuse_pass(orig, work, w, h, k, n), f, lo, hi),
    decreases n,
{
    if n > 0 {
        lemma_pass_within(orig, work, w, h, k, (n - 1) as nat, f, lo, hi);
        let prev = diffuse_pass(orig, work, w, h, k, (n - 1) as nat);
        let i = n - 1;
        lemma_coords(w, h, i);
        let x = i % w;
        let y = i / w;
        let o = field_value(orig[i], f);
        let s = neighbor_sum(prev, w, h, x, y, f);
        lemma_neighbor_sum_within(prev, w, h, x, y, f, lo, hi);
        lemma_relax_between(o, s, k, lo, hi);
        lemma_relax_between(o, s, k, i32::MIN as int, i32::MAX as int);
        assert(field_value(diffused_cell(orig, prev, w, h, i, k), f) == relax(o, s, k));
        let next = prev.update(i, diffused_cell(orig, prev, w, h, i, k));
        assert forall|j: int| 0 <= j < next.len() implies lo <= #[trigger] field_value(next[j], f) <= hi by {
            if j != i {
                assert(next[j] == prev[j]);
            }
        }
    }
}

proof fn lemma_sweeps_within(cells: Seq<Cell>, w: int, h: int, k: int, m: nat, f: Field, lo: int, hi: int)
    requires
        cells_wf(cells, w, h),
        k >= 0,
        channel_within(cells, f, lo, hi),
    ensures
        diffuse_sweeps(cells, w, h, k, m).len() == cells.len(),
        channel_within(diffuse_sweeps(cells, w, h, k, m), f, lo, hi),
    decreases m,
{
    if m > 0 {
        lemma_sweeps_within(cells, w, h, k, (m - 1) as nat, f, lo, hi);
        lemma_pass_within(cells, diffuse_sweeps(cells, w, h, k, (m - 1) as nat), w, h, k, (w * h) as nat, f, lo, hi);
    }
}

/// Diffusion obeys a maximum principle: where every value of a channel lies
/// in `lo..=hi` before a step, every value lies there after it. A hot cell
/// therefore never grows hotter, and no cell drops below the coldest one.
pub proof fn lemma_diffuse_bounded(cells: Seq<Cell>, w: int, h: int, dt: u32, rate: u32, f: Field, lo: int, hi: int)
    requires
        cells_wf(cells, w, h),
        channel_within(cells, f, lo, hi),
    ensures
        diffused(cells, w, h, dt as int, rate as int).len() == cells.len(),
        channel_within(diffused(cells, w, h, dt as int, rate as int), f, lo, hi),
{
    assert(rate as int * dt as int >= 0) by (nonlinear_arith)
        requires rate >= 0, dt >= 0;
    vstd::arithmetic::div_mod::lemma_div_pos_is_pos(rate as int * dt as int, 65536);
    lemma_sweeps_within(cells, w, h, stiffness_of(rate as int, dt as int), SWEEPS as nat, f, lo, hi);
}

proof fn lemma_relax_below(o: int, s: int, k: int, m: int)
    requires
        k >= 0,
        o <= m - 1,
        s <= 4 * m,
    ensures
        relax(o, s, k) <= m - 1,
{
    let d = 4 * (one() + k);
    let n = 4 * one() * o + k * s;
    assert(n <= d * m - 1) by (nonlinear_arith)
        requires d == 4 * (one() + k), n == 4 * one() * o + k * s, k >= 0, o <= m - 1, s <= 4 * m, one() > 0;
    vstd::arithmetic::div_mod::lemma_fundamental_div_mod(n, d);
    if n / d >= m {
        assert(d * (n / d) >= d * m) by (nonlinear_arith)
            requires n / d >= m, d > 0;
    }
}

proof fn lemma_relax_max_below(o: int, s: int, k: int)
    requires
        k > 0,
        s <= 4 * (o - 1),
    ensures
        relax(o, s, k) <= o - 1,
{
    let d = 4 * (one() + k);
    let n = 4 * one() * o + k * s;
    assert(n <= d * o - 1) by (nonlinear_arith)
        requires d == 4 * (one() + k), n == 4 * one() * o + k * s, k > 0, s <= 4 * (o - 1), one() > 0;
    vstd::arithmetic::div_mod::lemma_fundamental_div_mod(n, d);
    if n / d >= o {
        assert(d * (n / d) >= d * o) by (nonlinear_arith)
            requires n / d >= o, d > 0;
    }
}

/// On a ring of at least two, the indices before and after `i` differ from `i`.
proof fn lemma_wrap_moves(i: int, n: int)
    requires
        n >= 2,
        0 <= i < n,
    ensures
        0 <= wrap_prev(i, n) < n,
        0 <= wrap_next(i, n) < n,
        wrap_prev(i, n) != i,
        wrap_next(i, n) != i,
{
    if i >= 1 {
        vstd::arithmetic::div_mod::lemma_mod_multiples_vanish(1, i - 1, n);
        vstd::arithmetic::div_mod::lemma_small_mod((i - 1) as nat, n as nat);
    } else {
        vstd::arithmetic::div_mod::lemma_small_mod((n - 1) as nat, n as nat);
    }
    if i + 1 < n {
        vstd::arithmetic::div_mod::lemma_small_mod((i + 1) as nat, n as nat);
    } else {
        vstd::arithmetic::div_mod::lemma_mod_self_0(n);
    }
}

/// Every value of channel `f` is at most `m`, and below `m` but at index `i0`.
pub open spec fn capped_but_at(cells: Seq<Cell>, f: Field, i0: int, m: int) -> bool {
    forall|j: int| 0 <= j < cells.len() ==> #[trigger] field_value(cells[j], f) <= (if j == i0 { m } else { m - 1 })
}

proof fn lemma_pass_cools(
    orig: Seq<Cell>,
    work: Seq<Cell>,
    w: int,
    h: int,
    k: int,
    n: nat,
    f: Field,
    i0: int,
    m: int,
)
    requires
        cells_wf(orig, w, h),
        w >= 2,
        h >= 2,
        work.len() == orig.len(),
        k > 0,
        n <= orig.len(),
        0 <= i0 < orig.len(),
        capped_but_at(orig, f, i0, m),
        capped_but_at(work, f, i0, m),
    ensures
        diffuse_pass(orig, work, w, h, k, n).len() == orig.len(),
        capped_but_at(diffuse_pass(orig, work, w, h, k, n), f, i0, m),
        n > i0 ==> field_value(diffuse_pass(orig, work, w, h, k, n)[i0], f) <= m - 1,
    decreases n,
{
    if n > 0 {
        lemma_pass_cools(orig, work, w, h, k, (n - 1) as nat, f, i0, m);
        let prev = diffuse_pass(orig, work, w, h, k, (n - 1) as nat);
        let i = n - 1;
        lemma_coords(w, h, i);
        let x = i % w;
        let y = i / w;
        let o = field_value(orig[i], f);
        let s = neighbor_sum(prev, w, h, x, y, f);
        lemma_neighbor_sum_within(prev, w, h, x, y, f, i32::MIN as int, i32::MAX as int);
        lemma_relax_between(o, s, k, i32::MIN as int, i32::MAX as int);
        assert(field_value(diffused_cell(orig, prev, w, h, i, k), f) == relax(o, s, k));
        lemma_wrap_moves(x, w);
        lemma_wrap_moves(y, h);
        let xp = wrap_prev(x, w);
        let xn = wrap_next(x, w);
        let yp = wrap_prev(y, h);
        let yn = wrap_next(y, h);
        lemma_index_in_bounds(w, h, xp, y);
        lemma_index_in_bounds(w, h, xn, y);
        lemma_index_in_bounds(w, h, x, yp);
        lemma_index_in_bounds(w, h, x, yn);
        assert(field_value(prev[index_of(w, xp, y)], f) <= m);
        assert(field_value(prev[index_of(w, xn, y)], f) <= m);
        assert(field_value(prev[index_of(w, x, yp)], f) <= m);
        assert(field_value(prev[index_of(w, x, yn)], f) <= m);
        if i == i0 {
            assert(index_of(w, xp, y) != i);
            assert(index_of(w, xn, y) != i);
            assert(index_of(w, x, yp) != i) by {
                assert(index_of(w, x, yp) - index_of(w, x, y) == (yp - y) * w) by (nonlinear_arith);
                if (yp - y) * w == 0 {
                    assert(yp - y == 0) by (nonlinear_arith)
                        requires (yp - y) * w == 0, w >= 2;
                }
            }
            assert(index_of(w, x, yn) != i) by {
                assert(index_of(w, x, yn) - index_of(w, x, y) == (yn - y) * w) by (nonlinear_arith);
                if (yn - y) * w == 0 {
                    assert(yn - y == 0) by (nonlinear_arith)
                        requires (yn - y) * w == 0, w >= 2;
                }
            }
            assert(s <= 4 * (m - 1));
            assert(o <= m);
            if o == m {
                lemma_relax_max_below(o, s, k);
            } else {
                lemma_relax_below(o, s, k, m);
            }
        } else {
            lemma_relax_below(o, s, k, m);
        }
        let next = prev.update(i, diffused_cell(orig, prev, w, h, i, k));
        assert forall|j: int| 0 <= j < next.len() implies #[trigger] field_value(next[j], f) <= (if j == i0 { m } else { m - 1 }) by {
            if j != i {
                assert(next[j] == prev[j]);
            }
        }
    }
}

proof fn lemma_sweeps_cool(cells: Seq<Cell>, w: int, h: int, k: int, sweeps: nat, f: Field, i0: int, m: int)
    requires
        cells_wf(cells, w, h),
        w >= 2,
        h >= 2,
        k > 0,
        0 <= i0 < cells.len(),
        capped_but_at(cells, f, i0, m),
    ensures
        diffuse_sweeps(cells, w, h, k, sweeps).len() == cells.len(),
        capped_but_at(diffuse_sweeps(cells, w, h, k, sweeps), f, i0, m),
        sweeps > 0 ==> channel_within(diffuse_sweeps(cells, w, h, k, sweeps), f, i32::MIN as int, m - 1),
    decreases sweeps,
{
    if sweeps > 0 {
        lemma_sweeps_cool(cells, w, h, k, (sweeps - 1) as nat, f, i0, m);
        let start = diffuse_sweeps(cells, w, h, k, (sweeps - 1) as nat);
        lemma_pass_cools(cells, start, w, h, k, (w * h) as nat, f, i0, m);
        let end = diffuse_sweeps(cells, w, h, k, sweeps);
        assert forall|j: int| 0 <= j < end.len() implies i32::MIN <= #[trigger] field_value(end[j], f) <= m - 1 by {
            assert(field_value(end[j], f) <= (if j == i0 { m } else { m - 1 }));
        }
    }
}

/// Where one cell holds the strict maximum `m` of a channel and the step's
/// stiffness is positive, a diffusion step cools that maximum: afterwards
/// every cell, the hot one included, lies below `m`. With the maximum
/// principle above, a hot cell's density falls from step to step while it
/// stays the hottest.
pub proof fn lemma_diffuse_cools_hot_cell(
    cells: Seq<Cell>,
    w: int,
    h: int,
    dt: u32,
    rate: u32,
    f: Field,
    hot: int,
)
    requires
        cells_wf(cells, w, h),
        w >= 2,
        h >= 2,
        stiffness_of(rate as int, dt as int) > 0,
        0 <= hot < cells.len(),
        forall|j: int| 0 <= j < cells.len() && j != hot ==> #[trigger] field_value(cells[j], f) < field_value(cells[hot], f),
    ensures
        diffused(cells, w, h, dt as int, rate as int).len() == cells.len(),
        forall|j: int| 0 <= j < cells.len() ==> #[trigger] field_value(diffused(cells, w, h, dt as int, rate as int)[j], f) < field_value(cells[hot], f),
{
    let m = field_value(cells[hot], f);
    assert(capped_but_at(cells, f, hot, m));
    lemma_sweeps_cool(cells, w, h, stiffness_of(rate as int, dt as int), SWEEPS as nat, f, hot, m);
}

impl Grid {
    /// One diffusion step: `SWEEPS` Gauss-Seidel sweeps with stiffness
    /// `k = rate * dt`, each cell relaxed toward its neighbour mean as
    /// `(original + k * mean) / (1 + k)`.
    pub fn diffuse(&mut self, dt: u32, rate: u32)
        requires
            old(self).wf(),
        ensures
            final(self).wf(),
            final(self).width == old(self).width,
            final(self).height == old(self).height,
            final(self).mode == old(self).mode,
            final(self).cells@ == diffused(
                old(self).cells@,
                old(self).width as int,
                old(self).height as int,
                dt as int,
                rate as int,
            ),
    {
        let k = stiffness(rate, dt);
        let w = self.width;
        let h = self.height;
        let n = self.cells.len();
        let orig = copy_cells(&self.cells);
        let mut sweep: usize = 0;
        while sweep < SWEEPS
            invariant
                sweep <= SWEEPS,
                w == self.width,
                h == self.height,
                self.mode == old(self).mode,
                n == w * h,
                cells_wf(orig@, w as int, h as int),
                orig@ == old(self).cells@,
                k == stiffness_of(rate as int, dt as int),
                k <= 0x1_0000_0000_0000,
                self.cells@ == diffuse_sweeps(orig@, w as int, h as int, k as int, sweep as nat),
                self.cells@.len() == n,
            decreases SWEEPS - sweep,
        {
            let ghost start = self.cells@;
            let mut i: usize = 0;
            while i < n
                invariant
                    i <= n,
                    w == self.width,
                    h == self.height,
                    self.mode == old(self).mode,
                    n == w * h,
                    cells_wf(orig@, w as int, h as int),
                    k <= 0x1_0000_0000_0000,
                    start.len() == n,
                    self.cells@ == diffuse_pass(orig@, start, w as int, h as int, k as int, i as nat),
                    self.cells@.len() == n,
                decreases n - i,
            {
                proof {
                    lemma_coords(w as int, h as int, i as int);
                }
                let x = i % w;
                let y = i / w;
                let sd = neighbor_sum_of(&self.cells, w, h, x, y, Field::Density);
                let sx = neighbor_sum_of(&self.cells, w, h, x, y, Field::VelocityX);
                let sy = neighbor_sum_of(&self.cells, w, h, x, y, Field::VelocityY);
                let o = orig[i];
                let c = Cell {
                    velocity: Vec2 { x: relax_exec(o.velocity.x, sx, k), y: relax_exec(o.velocity.y, sy, k) },
                    density: relax_exec(o.density, sd, k),
                };
                self.cells.set(i, c);
                proof {
                    lemma_pass_len(orig@, start, w as int, h as int, k as int, i as nat);
                }
                i += 1;
            }
            sweep += 1;
        }
    }
}

} // verus!
