//! The toroidal simulation grid: its cells, neighbour addressing, and the
//! operations that read and perturb it.
use vstd::prelude::*;

use crate::fixed::ONE;

verus! {

/// Default number of columns.
pub const WIDTH: usize = 20;

/// Default number of rows.
pub const HEIGHT: usize = 20;

/// Largest number of columns or rows a grid may have.
pub const MAX_SIDE: usize = 4096;

/// Column of the spike cell in `InitMode::Spike`.
pub const SPIKE_X: usize = 4;

/// Row of the spike cell in `InitMode::Spike`.
pub const SPIKE_Y: usize = 4;

/// Density of the spike cell (20.0).
pub const SPIKE_DENSITY: i32 = 20 * ONE;

/// Velocity of the spike cell (20.0, -20.0).
pub const SPIKE_VELOCITY_X: i32 = 20 * ONE;

/// Second component of the spike cell's velocity.
pub const SPIKE_VELOCITY_Y: i32 = -20 * ONE;

/// A 2D vector of Q16.16 fixed-point components.
#[derive(Clone, Copy, Debug, PartialEq, Eq, Structural)]
pub struct Vec2 {
    pub x: i32,
    pub y: i32,
}

/// One grid cell: a velocity and a scalar density, both fixed-point.
#[derive(Clone, Copy, Debug, PartialEq, Eq, Structural)]
pub struct Cell {
    pub velocity: Vec2,
    pub density: i32,
}

/// Which scalar channel of a cell an operation reads.
#[derive(Clone, Copy, Debug, PartialEq, Eq, Structural)]
pub enum Field {
    Density,
    VelocityX,
    VelocityY,
}

/// How a grid is filled when it is built or reset.
#[derive(Clone, Copy, Debug, PartialEq, Eq, Structural)]
pub enum InitMode {
    /// Every cell zero.
    Empty,
    /// Every cell zero but the one at (`SPIKE_X`, `SPIKE_Y`), when the grid has it.
    Spike,
}

/// Why an operation on a grid was refused.
#[derive(Clone, Copy, Debug, PartialEq, Eq, Structural)]
pub enum GridError {
    /// A side is zero or larger than `MAX_SIDE`.
    InvalidSize,
    /// A coordinate lies outside the grid.
    OutOfRange,
}

/// A `width` × `height` toroidal grid of cells, stored row by row.
pub struct Grid {
    pub width: usize,
    pub height: usize,
    pub cells: Vec<Cell>,
    pub mode: InitMode,
}

pub open spec fn zero_cell() -> Cell {
    Cell { velocity: Vec2 { x: 0, y: 0 }, density: 0 }
}

pub open spec fn spike_cell() -> Cell {
    Cell { velocity: Vec2 { x: SPIKE_VELOCITY_X, y: SPIKE_VELOCITY_Y }, density: SPIKE_DENSITY }
}

/// Position in the row-major cell sequence of column `x`, row `y`.
pub open spec fn index_of(w: int, x: int, y: int) -> int {
    y * w + x
}

pub open spec fn cell_at(cells: Seq<Cell>, w: int, x: int, y: int) -> Cell {
    cells[index_of(w, x, y)]
}

pub open spec fn sides_ok(w: int, h: int) -> bool {
    1 <= w <= MAX_SIDE && 1 <= h <= MAX_SIDE
}

/// A cell sequence that fills a `w` × `h` grid.
pub open spec fn cells_wf(cells: Seq<Cell>, w: int, h: int) -> bool {
    sides_ok(w, h) && cells.len() == w * h
}

pub open spec fn field_value(c: Cell, f: Field) -> int {
    match f {
        Field::Density => c.density as int,
        Field::VelocityX => c.velocity.x as int,
        Field::VelocityY => c.velocity.y as int,
    }
}

/// The next index after `i` on a ring of `n`.
pub open spec fn wrap_next(i: int, n: int) -> int {
    (i + 1) % n
}

/// The index before `i` on a ring of `n`.
pub open spec fn wrap_prev(i: int, n: int) -> int {
    (i + n - 1) % n
}

/// Sum of channel `f` over the west, east, north and south neighbours of
/// (`x`, `y`), wrapping at both edges; the cell itself is not counted.
pub open spec fn neighbor_sum(cells: Seq<Cell>, w: int, h: int, x: int, y: int, f: Field) -> int {
    field_value(cell_at(cells, w, wrap_prev(x, w), y), f) + field_value(
        cell_at(cells, w, wrap_next(x, w), y),
        f,
    ) + field_value(cell_at(cells, w, x, wrap_prev(y, h)), f) + field_value(
        cell_at(cells, w, x, wrap_next(y, h)),
        f,
    )
}

/// The cell at index `i` of a freshly built grid.
pub open spec fn initial_cell(w: int, h: int, mode: InitMode, i: int) -> Cell {
    if mode == InitMode::Spike && SPIKE_X < w && SPIKE_Y < h && i == index_of(
        w,
        SPIKE_X as int,
        SPIKE_Y as int,
    ) {
        spike_cell()
    } else {
        zero_cell()
    }
}

pub open spec fn initial_cells(w: int, h: int, mode: InitMode) -> Seq<Cell> {
    Seq::new((w * h) as nat, |i: int| initial_cell(w, h, mode, i))
}

pub proof fn lemma_index_in_bounds(w: int, h: int, x: int, y: int)
    requires
        0 <= x < w,
        0 <= y < h,
    ensures
        0 <= index_of(w, x, y) < w * h,
{
    assert(0 <= y * w + x < w * h) by (nonlinear_arith)
        requires 0 <= x < w, 0 <= y < h;
}

/// Column and row of index `i` lie inside the grid and lead back to `i`.
pub proof fn lemma_coords(w: int, h: int, i: int)
    requires
        w > 0,
        0 <= i < w * h,
    ensures
        0 <= i % w < w,
        0 <= i / w < h,
        index_of(w, i % w, i / w) == i,
{
    vstd::arithmetic::div_mod::lemma_fundamental_div_mod(i, w);
    vstd::arithmetic::div_mod::lemma_div_pos_is_pos(i, w);
    let q = i / w;
    let r = i % w;
    assert(q * w == w * q) by (nonlinear_arith);
    if q >= h {
        assert(w * q >= w * h) by (nonlinear_arith)
            requires q >= h, w > 0;
    }
}

/// The sides of a grid bound its cell count well below `usize::MAX`.
proof fn lemma_area(w: int, h: int)
    requires
        sides_ok(w, h),
    ensures
        w * h <= MAX_SIDE * MAX_SIDE,
{
    assert(w * h <= MAX_SIDE * MAX_SIDE) by (nonlinear_arith)
        requires 1 <= w <= MAX_SIDE, 1 <= h <= MAX_SIDE;
}

pub fn field_of(c: &Cell, f: Field) -> (r: i32)
    ensures
        r == field_value(*c, f),
{
    match f {
        Field::Density => c.density,
        Field::VelocityX => c.velocity.x,
        Field::VelocityY => c.velocity.y,
    }
}

/// Index of column `x`, row `y` of a `w` × `h` grid.
pub fn index(w: usize, h: usize, x: usize, y: usize) -> (r: usize)
    requires
        sides_ok(w as int, h as int),
        x < w,
        y < h,
    ensures
        r == index_of(w as int, x as int, y as int),
        r < w * h,
{
    proof {
        lemma_index_in_bounds(w as int, h as int, x as int, y as int);
        lemma_area(w as int, h as int);
    }
    y * w + x
}

/// `neighbor_sum` over a cell sequence.
pub fn neighbor_sum_of(cells: &Vec<Cell>, w: usize, h: usize, x: usize, y: usize, f: Field) -> (r:
    i64)
    requires
        cells_wf(cells@, w as int, h as int),
        x < w,
        y < h,
    ensures
        r == neighbor_sum(cells@, w as int, h as int, x as int, y as int, f),
{
    let xn = (x + 1) % w;
    let xp = (x + w - 1) % w;
    let yn = (y + 1) % h;
    let yp = (y + h - 1) % h;
    let n1 = field_of(&cells[index(w, h, xp, y)], f);
    let n2 = field_of(&cells[index(w, h, xn, y)], f);
    let n3 = field_of(&cells[index(w, h, x, yp)], f);
    let n4 = field_of(&cells[index(w, h, x, yn)], f);
    n1 as i64 + n2 as i64 + n3 as i64 + n4 as i64
}

/// A copy of a cell sequence.
pub fn copy_cells(cells: &Vec<Cell>) -> (r: Vec<Cell>)
    ensures
        r@ == cells@,
{
    let mut r: Vec<Cell> = Vec::with_capacity(cells.len());
    let mut i: usize = 0;
    while i < cells.len()
        invariant
            i <= cells.len(),
            r@ == cells@.subrange(0, i as int),
        decreases cells.len() - i,
    {
        r.push(cells[i]);
        i += 1;
        assert(r@ =~= cells@.subrange(0, i as int));
    }
    assert(r@ =~= cells@);
    r
}

/// The cells of a fresh `w` × `h` grid built in `mode`.
pub fn build_cells(w: usize, h: usize, mode: InitMode) -> (r: Vec<Cell>)
    requires
        sides_ok(w as int, h as int),
    ensures
        r@ == initial_cells(w as int, h as int, mode),
{
    proof {
        lemma_area(w as int, h as int);
    }
    let n = w * h;
    let spiked = matches!(mode, InitMode::Spike) && SPIKE_X < w && SPIKE_Y < h;
    let mut r: Vec<Cell> = Vec::with_capacity(n);
    let mut i: usize = 0;
    while i < n
        invariant
            n == w * h,
            sides_ok(w as int, h as int),
            i <= n,
            spiked == (mode == InitMode::Spike && SPIKE_X < w && SPIKE_Y < h),
            r@.len() == i,
            forall|j: int| 0 <= j < i ==> r@[j] == initial_cell(w as int, h as int, mode, j),
        decreases n - i,
    {
        let c = if spiked && i == SPIKE_Y * w + SPIKE_X {
            Cell { velocity: Vec2 { x: SPIKE_VELOCITY_X, y: SPIKE_VELOCITY_Y }, density: SPIKE_DENSITY }
        } else {
            Cell { velocity: Vec2 { x: 0, y: 0 }, density: 0 }
        };
        r.push(c);
        i += 1;
    }
    assert(r@ =~= initial_cells(w as int, h as int, mode));
    r
}

impl Grid {
    /// The grid is `width` × `height` within `MAX_SIDE`, with one cell per position.
    pub open spec fn wf(&self) -> bool {
        cells_wf(self.cells@, self.width as int, self.height as int)
    }

    pub open spec fn cell(&self, x: int, y: int) -> Cell {
        cell_at(self.cells@, self.width as int, x, y)
    }

    /// A `WIDTH` × `HEIGHT` grid of zero cells.
    pub fn new() -> (g: Grid)
        ensures
            g.wf(),
            g.width == WIDTH,
            g.height == HEIGHT,
            g.mode == InitMode::Empty,
            g.cells@ == initial_cells(WIDTH as int, HEIGHT as int, InitMode::Empty),
    {
        Grid { width: WIDTH, height: HEIGHT, cells: build_cells(WIDTH, HEIGHT, InitMode::Empty), mode: InitMode::Empty }
    }

    /// A `width` × `height` grid filled as `mode` says; refused unless both
    /// sides lie in `1..=MAX_SIDE`.
    pub fn with_mode(width: usize, height: usize, mode: InitMode) -> (r: Result<Grid, GridError>)
        ensures
            r is Ok <==> sides_ok(width as int, height as int),
            r is Err ==> r == Err::<Grid, GridError>(GridError::InvalidSize),
            r matches Ok(g) ==> g.wf() && g.width == width && g.height == height && g.mode == mode
                && g.cells@ == initial_cells(width as int, height as int, mode),
    {
        if width == 0 || width > MAX_SIDE || height == 0 || height > MAX_SIDE {
            Err(GridError::InvalidSize)
        } else {
            Ok(Grid { width, height, cells: build_cells(width, height, mode), mode })
        }
    }

    pub fn width(&self) -> (r: usize)
        ensures
            r == self.width,
    {
        self.width
    }

    pub fn height(&self) -> (r: usize)
        ensures
            r == self.height,
    {
        self.height
    }

    /// Mean of channel `f` over the four wrapped neighbours of (`x`, `y`),
    /// rounded down.
    pub fn get_average(&self, x: usize, y: usize, f: Field) -> (r: i32)
        requires
            self.wf(),
            x < self.width,
            y < self.height,
        ensures
            r == neighbor_sum(self.cells@, self.width as int, self.height as int, x as int, y as int, f) / 4,
    {
        let s = neighbor_sum_of(&self.cells, self.width, self.height, x, y, f);
        crate::fixed::div4(s) as i32
    }

    /// The cell at (`x`, `y`); coordinates outside the grid are refused, not wrapped.
    pub fn read(&self, x: usize, y: usize) -> (r: Result<Cell, GridError>)
        requires
            self.wf(),
        ensures
            r is Err <==> (x >= self.width || y >= self.height),
            r is Err ==> r == Err::<Cell, GridError>(GridError::OutOfRange),
            r matches Ok(c) ==> c == self.cell(x as int, y as int),
    {
        if x >= self.width || y >= self.height {
            Err(GridError::OutOfRange)
        } else {
            Ok(self.cells[index(self.width, self.height, x, y)])
        }
    }

    /// Overwrites the velocity of cell (`x`, `y`). Coordinates outside the
    /// grid are refused and leave it unchanged.
    pub fn inject(&mut self, x: usize, y: usize, velocity: Vec2) -> (r: Result<(), GridError>)
        requires
            old(self).wf(),
        ensures
            final(self).wf(),
            final(self).width == old(self).width,
            final(self).height == old(self).height,
            final(self).mode == old(self).mode,
            r is Err <==> (x >= old(self).width || y >= old(self).height),
            r is Err ==> r == Err::<(), GridError>(GridError::OutOfRange) && *final(self) == *old(self),
            r is Ok ==> final(self).cells@ == old(self).cells@.update(
                index_of(old(self).width as int, x as int, y as int),
                (Cell { velocity, density: old(self).cell(x as int, y as int).density }),
            ),
    {
        if x >= self.width || y >= self.height {
            return Err(GridError::OutOfRange);
        }
        let i = index(self.width, self.height, x, y);
        let c = Cell { velocity, density: self.cells[i].density };
        self.cells.set(i, c);
        Ok(())
    }

    /// Replaces every cell with those of a fresh grid of the same size and mode.
    pub fn reset(&mut self)
        requires
            old(self).wf(),
        ensures
            final(self).wf(),
            final(self).width == old(self).width,
            final(self).height == old(self).height,
            final(self).mode == old(self).mode,
            final(self).cells@ == initial_cells(old(self).width as int, old(self).height as int, old(self).mode),
    {
        self.cells = build_cells(self.width, self.height, self.mode);
    }
}

} // verus!
