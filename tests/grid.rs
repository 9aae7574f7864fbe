use fluid_sim::fixed::ONE;
use fluid_sim::grid::{
    Cell, Field, Grid, GridError, InitMode, Vec2, HEIGHT, MAX_SIDE, SPIKE_DENSITY, SPIKE_VELOCITY_X,
    SPIKE_VELOCITY_Y, WIDTH,
};

fn zero() -> Cell {
    Cell { velocity: Vec2 { x: 0, y: 0 }, density: 0 }
}

fn sized(w: usize, h: usize) -> Grid {
    Grid::with_mode(w, h, InitMode::Empty).unwrap()
}

#[test]
fn new_grid_is_all_zero() {
    let g = Grid::new();
    assert_eq!(g.width(), WIDTH);
    assert_eq!(g.height(), HEIGHT);
    assert_eq!(g.cells.len(), WIDTH * HEIGHT);
    assert!(g.cells.iter().all(|c| *c == zero()));
    assert_eq!(g.mode, InitMode::Empty);
}

#[test]
fn with_mode_rejects_bad_sides() {
    assert_eq!(Grid::with_mode(0, 3, InitMode::Empty).err(), Some(GridError::InvalidSize));
    assert_eq!(Grid::with_mode(3, 0, InitMode::Empty).err(), Some(GridError::InvalidSize));
    assert_eq!(Grid::with_mode(MAX_SIDE + 1, 3, InitMode::Spike).err(), Some(GridError::InvalidSize));
    assert!(Grid::with_mode(1, 1, InitMode::Empty).is_ok());
}

#[test]
fn spike_mode_places_one_spike() {
    let g = Grid::with_mode(WIDTH, HEIGHT, InitMode::Spike).unwrap();
    let spike = g.read(4, 4).unwrap();
    assert_eq!(spike.density, 20 * ONE);
    assert_eq!(spike.density, SPIKE_DENSITY);
    assert_eq!(spike.velocity, Vec2 { x: SPIKE_VELOCITY_X, y: SPIKE_VELOCITY_Y });
    assert_eq!(spike.velocity, Vec2 { x: 20 * ONE, y: -20 * ONE });
    let others = g.cells.iter().filter(|c| **c == zero()).count();
    assert_eq!(others, WIDTH * HEIGHT - 1);
}

#[test]
fn spike_mode_on_a_small_grid_has_no_spike() {
    let g = Grid::with_mode(3, 3, InitMode::Spike).unwrap();
    assert!(g.cells.iter().all(|c| *c == zero()));
}

#[test]
fn average_at_corner_samples_wrapped_neighbours() {
    let mut g = sized(3, 3);
    for i in 0..9 {
        g.cells[i] = Cell { velocity: Vec2 { x: i as i32, y: -(i as i32) }, density: (i as i32 + 1) * 10 };
    }
    // West (2,0) = 30, east (1,0) = 20, north (0,2) = 70, south (0,1) = 40.
    assert_eq!(g.get_average(0, 0, Field::Density), 40);
    assert_eq!(g.get_average(0, 0, Field::VelocityX), 3);
    assert_eq!(g.get_average(0, 0, Field::VelocityY), -3);
    // The cell itself and the far corner are not sampled.
    g.cells[0].density = 1000;
    g.cells[8].density = 1000;
    assert_eq!(g.get_average(0, 0, Field::Density), 40);
}

#[test]
fn average_rounds_down() {
    let mut g = sized(3, 3);
    g.cells[1].density = -5;
    assert_eq!(g.get_average(0, 0, Field::Density), -2);
    g.cells[1].density = 7;
    assert_eq!(g.get_average(0, 0, Field::Density), 1);
}

#[test]
fn read_refuses_outside_coordinates() {
    let g = sized(4, 3);
    assert_eq!(g.read(4, 0), Err(GridError::OutOfRange));
    assert_eq!(g.read(0, 3), Err(GridError::OutOfRange));
    assert_eq!(g.read(3, 2), Ok(zero()));
}

#[test]
fn inject_out_of_range_leaves_grid_unchanged() {
    let mut g = Grid::with_mode(WIDTH, HEIGHT, InitMode::Spike).unwrap();
    let before = g.cells.clone();
    let v = Vec2 { x: ONE, y: ONE };
    assert_eq!(g.inject(WIDTH, 0, v), Err(GridError::OutOfRange));
    assert_eq!(g.inject(0, HEIGHT, v), Err(GridError::OutOfRange));
    assert_eq!(g.inject(WIDTH + 7, HEIGHT + 7, v), Err(GridError::OutOfRange));
    assert_eq!(g.cells, before);
}

#[test]
fn inject_overwrites_velocity_only() {
    let mut g = Grid::with_mode(WIDTH, HEIGHT, InitMode::Spike).unwrap();
    let v = Vec2 { x: 3 * ONE, y: -ONE };
    assert_eq!(g.inject(4, 4, v), Ok(()));
    let c = g.read(4, 4).unwrap();
    assert_eq!(c.velocity, v);
    assert_eq!(c.density, SPIKE_DENSITY);
    assert_eq!(g.inject(0, 0, v), Ok(()));
    assert_eq!(g.read(0, 0).unwrap(), Cell { velocity: v, density: 0 });
}

#[test]
fn reset_rebuilds_in_the_same_mode() {
    let mut g = Grid::with_mode(6, 5, InitMode::Spike).unwrap();
    let fresh = g.cells.clone();
    g.inject(1, 1, Vec2 { x: ONE, y: ONE }).unwrap();
    g.step((ONE / 60) as u32);
    assert_ne!(g.cells, fresh);
    g.reset();
    assert_eq!(g.cells, fresh);
    assert_eq!((g.width(), g.height(), g.mode), (6, 5, InitMode::Spike));
}
