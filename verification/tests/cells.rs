use particle_life::fixed::UNIT;
use particle_life::grid::{ParticleGrid, GRID_SIZE};
use particle_life::particle::{Particle, ParticleColor};
use particle_life::quadtree::{AABB, XY};
use particle_life::screen::{frame, marker, pixel, MARKER_HALF};

fn raw(units: f64) -> i32 {
    (units * UNIT as f64).round() as i32
}

/// The square with the given centre and half side, written down as it stands.
fn square(x: i32, y: i32, half: i32) -> AABB {
    AABB { center: XY { x, y }, half_dimension: half }
}

fn at(x: f64, y: f64) -> Particle {
    Particle { pos: XY { x: raw(x), y: raw(y) }, vx: 0, vy: 0, color: ParticleColor::Red }
}

#[test]
fn the_grid_takes_particles_of_the_world() {
    assert_eq!(GRID_SIZE, 80);
    let mut grid = ParticleGrid::new();
    assert_eq!(grid.get(0, 0), Some(0));
    assert_eq!(grid.get(79, 79), Some(0));
    assert_eq!(grid.get(80, 0), None);
    assert_eq!(grid.get(0, 80), None);
    grid.insert(&at(0.0, 0.0), 1);
    assert_eq!(grid.get(0, 0), Some(1));
    grid.insert(&at(799.9, 799.9), 2);
    assert_eq!(grid.get(9, 9), Some(2));
    grid.insert(&at(-3.0, 79.9), 3);
    assert_eq!(grid.get(0, 0), Some(3));
    grid.insert(&at(400.0, 80.0), 4);
    assert_eq!(grid.get(1, 5), Some(4));
    assert_eq!(grid.get(5, 1), Some(0));
    grid.insert(&at(6399.9, 160.0), 5);
    assert_eq!(grid.get(2, 79), Some(5));
    assert_eq!(grid.get(9, 9), Some(2));
}

#[test]
fn a_coordinate_becomes_its_whole_pixel() {
    assert_eq!(pixel(raw(12.0)), 12);
    assert_eq!(pixel(raw(12.99)), 12);
    assert_eq!(pixel(raw(-12.99)), -12);
    assert_eq!(pixel(raw(-0.5)), 0);
    assert_eq!(pixel(i32::MAX), i16::MAX);
    assert_eq!(pixel(i32::MIN), i16::MIN);
}

#[test]
fn a_square_becomes_the_rectangle_it_covers() {
    let r = frame(&square(raw(400.0), raw(300.0), raw(100.0)));
    assert_eq!((r.x, r.y, r.width, r.height), (300, 200, 200, 200));
    let r = frame(&square(raw(0.5), raw(-0.5), raw(1.75)));
    assert_eq!((r.x, r.y, r.width, r.height), (-1, -2, 2, 2));
    let r = frame(&square(raw(10.0), raw(10.0), raw(-4.0)));
    assert_eq!((r.x, r.y, r.width, r.height), (14, 14, 0, 0));
    let r = frame(&square(i32::MIN, i32::MAX, i32::MAX));
    assert_eq!((r.x, r.y, r.width, r.height), (-65535, 0, 65534, 65534));
}

#[test]
fn a_point_is_marked_by_ten_pixels_around_it() {
    assert_eq!(MARKER_HALF, 5 * UNIT);
    let r = marker(&XY { x: raw(100.0), y: raw(3.5) });
    assert_eq!((r.x, r.y, r.width, r.height), (95, -1, 10, 10));
    let r = marker(&XY { x: i32::MIN, y: i32::MAX });
    assert_eq!((r.x, r.y, r.width, r.height), (-32773, 32762, 10, 10));
}
