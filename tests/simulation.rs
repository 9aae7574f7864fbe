use fluid_sim::fixed::{div4, lerp_exec, relax_exec, stiffness, ONE};
use fluid_sim::grid::{Cell, Grid, InitMode, Vec2, HEIGHT, WIDTH};

fn sized(w: usize, h: usize) -> Grid {
    Grid::with_mode(w, h, InitMode::Empty).unwrap()
}

fn densities(g: &Grid) -> Vec<i32> {
    g.cells.iter().map(|c| c.density).collect()
}

fn scattered() -> Grid {
    let mut g = sized(5, 4);
    for i in 0..20 {
        let s = i as i32;
        g.cells[i] = Cell { velocity: Vec2 { x: s * 977 - 9000, y: 4000 - s * 611 }, density: s * s * 301 };
    }
    g
}

#[test]
fn arithmetic_exact_values() {
    assert_eq!(stiffness(ONE as u32, ONE as u32), ONE as u64);
    assert_eq!(stiffness(983040, (ONE / 60) as u32), 16380);
    assert_eq!(relax_exec(ONE, 0, ONE as u64), ONE / 2);
    assert_eq!(relax_exec(-ONE, 0, 0), -ONE);
    assert_eq!(lerp_exec(0, ONE, (ONE / 2) as i64), ONE / 2);
    assert_eq!(lerp_exec(10, 3, (ONE / 2) as i64), 6);
    assert_eq!(div4(-5), -2);
    assert_eq!(div4(160), 40);
}

#[test]
fn diffuse_with_zero_dt_changes_nothing() {
    let mut g = scattered();
    let before = g.cells.clone();
    g.diffuse(0, 15 * ONE as u32);
    assert_eq!(g.cells, before);
    g.diffuse(0, u32::MAX);
    assert_eq!(g.cells, before);
}

#[test]
fn diffuse_with_zero_rate_changes_nothing() {
    let mut g = scattered();
    let before = g.cells.clone();
    g.diffuse(ONE as u32, 0);
    assert_eq!(g.cells, before);
    g.diffuse(u32::MAX, 0);
    assert_eq!(g.cells, before);
}

#[test]
fn diffuse_spreads_a_hot_cell_into_its_neighbours() {
    let mut g = sized(4, 4);
    g.cells[2 * 4 + 2].density = ONE;
    g.diffuse(ONE as u32, ONE as u32);
    let d = densities(&g);
    assert_eq!(d[2 * 4 + 2], 35224);
    for (x, y) in [(1, 2), (3, 2), (2, 1), (2, 3)] {
        assert_eq!(d[y * 4 + x], 4914);
    }
    assert_eq!(
        d,
        vec![274, 544, 1364, 545, 544, 1363, 4914, 1364, 1364, 4914, 35224, 4914, 545, 1364, 4914, 1364]
    );
    // The sweeps are not exactly mass-conserving: the total drifts from
    // 65536 to 65515 here.
    let total: i64 = d.iter().map(|v| *v as i64).sum();
    assert_eq!(total, 65515);
}

#[test]
fn repeated_diffusion_cools_the_hot_cell_toward_the_mean() {
    let mut g = sized(4, 4);
    g.cells[2 * 4 + 2].density = ONE;
    let mut hot = ONE;
    let mut hots = Vec::new();
    for _ in 0..8 {
        g.diffuse(ONE as u32, ONE as u32);
        let h = g.read(2, 2).unwrap().density;
        assert!(h < hot);
        hot = h;
        hots.push(h);
        assert!(g.cells.iter().all(|c| 0 <= c.density && c.density <= ONE));
    }
    assert_eq!(hots, vec![35224, 20596, 13220, 9335, 7202, 5987, 5271, 4837]);
    for _ in 8..40 {
        g.diffuse(ONE as u32, ONE as u32);
    }
    // Every cell settles on one value near the mean 4096, below it by the
    // rounding drift of the sweeps.
    assert!(g.cells.iter().all(|c| c.density == 4079));
}

#[test]
fn diffusion_keeps_each_channel_within_its_range() {
    let mut g = scattered();
    let lo = g.cells.iter().map(|c| c.velocity.x).min().unwrap();
    let hi = g.cells.iter().map(|c| c.velocity.x).max().unwrap();
    for _ in 0..5 {
        g.diffuse(ONE as u32, 15 * ONE as u32);
        assert!(g.cells.iter().all(|c| lo <= c.velocity.x && c.velocity.x <= hi));
    }
}

#[test]
fn advect_at_rest_changes_nothing() {
    let mut g = sized(5, 4);
    for i in 0..20 {
        g.cells[i].density = (i as i32) * 1234 - 7000;
    }
    let before = g.cells.clone();
    g.advect(ONE as u32);
    assert_eq!(g.cells, before);
    g.advect(u32::MAX);
    assert_eq!(g.cells, before);
}

#[test]
fn sample_is_exact_on_linear_rows() {
    let mut g = sized(4, 4);
    for i in 0..16 {
        g.cells[i].density = (i % 4) as i32 * ONE;
    }
    // Halfway a quarter of the way from column 1 to column 2.
    assert_eq!(g.sample_density((ONE + ONE / 4) as i64, (2 * ONE) as i64), ONE + ONE / 4);
    assert_eq!(g.sample_density((2 * ONE + 3) as i64, 0), 2 * ONE + 3);
}

#[test]
fn sample_is_exact_on_linear_columns() {
    let mut g = sized(4, 4);
    for i in 0..16 {
        g.cells[i].density = (i / 4) as i32 * ONE;
    }
    assert_eq!(g.sample_density((2 * ONE) as i64, (ONE + ONE / 2) as i64), ONE + ONE / 2);
}

#[test]
fn sample_wraps_negative_positions() {
    let mut g = sized(4, 4);
    for i in 0..16 {
        g.cells[i].density = (i % 4) as i32 * ONE;
    }
    // Column -1 is column 3; at three quarters of the way to column 0.
    assert_eq!(g.sample_density((-ONE / 4) as i64, 0), 3 * ONE - 3 * (3 * ONE) / 4);
}

#[test]
fn advect_moves_density_along_the_velocity() {
    let mut g = sized(4, 4);
    for i in 0..16 {
        g.cells[i] = Cell { velocity: Vec2 { x: ONE / 4, y: 0 }, density: (i % 4) as i32 * ONE };
    }
    g.advect(ONE as u32);
    let row = vec![115158, 91514, 92020, 120040];
    let expected: Vec<i32> = row.iter().cycle().take(16).cloned().collect();
    assert_eq!(densities(&g), expected);
    assert!(g.cells.iter().all(|c| c.velocity == Vec2 { x: ONE / 4, y: 0 }));
}

#[test]
fn step_diffuses_then_advects() {
    let mut g = sized(4, 4);
    for i in 0..16 {
        g.cells[i] = Cell { velocity: Vec2 { x: ONE / 2, y: -ONE / 4 }, density: 0 };
    }
    g.cells[4 + 1].density = ONE;
    g.step((ONE / 60) as u32);
    assert_eq!(
        densities(&g),
        vec![257, 2537, 416, 57, 2542, 49901, 5618, 522, 257, 2537, 407, 56, 31, 257, 48, 8]
    );
    assert!(g.cells.iter().all(|c| c.velocity == Vec2 { x: ONE / 2, y: -ONE / 4 }));
}

#[test]
fn step_on_the_default_grid_runs() {
    let mut g = Grid::with_mode(WIDTH, HEIGHT, InitMode::Spike).unwrap();
    for _ in 0..3 {
        g.step((ONE / 60) as u32);
    }
    assert_eq!(g.cells.len(), WIDTH * HEIGHT);
    assert!(g.read(4, 4).unwrap().density < 20 * ONE);
}

#[test]
fn sample_pairs_the_second_row_in_reverse() {
    let mut g = sized(4, 4);
    for i in 0..16 {
        g.cells[i].density = (i % 4) as i32 * ONE;
    }
    // With a fractional row offset the second row sample runs from (1, 1)
    // back to (1, 0), both ONE, so the result leans toward ONE.
    assert_eq!(g.sample_density((ONE + ONE / 4) as i64, (ONE / 2) as i64), 73728);
}
