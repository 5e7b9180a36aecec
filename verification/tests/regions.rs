use particle_life::error::ConfigError;
use particle_life::fixed::UNIT;
use particle_life::quadtree::{AABB, XY};

/// A length in units as the raw fixed-point number nearest to it.
fn raw(units: f64) -> i32 {
    (units * UNIT as f64).round() as i32
}

fn point(x: f64, y: f64) -> XY {
    XY { x: raw(x), y: raw(y) }
}

/// The square with the given centre and half side, written down as it stands.
fn square(x: i32, y: i32, half: i32) -> AABB {
    AABB { center: XY { x, y }, half_dimension: half }
}

#[test]
fn quadtree_test_intersects_aabb() {
    let box1 = AABB {
        center: XY { x: raw(0.0), y: raw(0.0) },
        half_dimension: raw(1.0),
    };
    let box2 = AABB {
        center: XY { x: raw(1.5), y: raw(1.5) },
        half_dimension: raw(1.0),
    };
    let overlap = box1.intersects_aabb(&box2);
    assert_eq!(overlap, true);

    let box3 = AABB {
        center: XY { x: raw(0.0), y: raw(0.0) },
        half_dimension: raw(1.0),
    };
    let box4 = AABB {
        center: XY { x: raw(3.0), y: raw(3.0) },
        half_dimension: raw(1.0),
    };
    let no_overlap = box3.intersects_aabb(&box4);
    assert_eq!(no_overlap, false);
}

#[test]
fn quadtree_test_contains_point() {
    let box1 = AABB {
        center: XY { x: raw(0.0), y: raw(0.0) },
        half_dimension: raw(1.0),
    };

    // Containing Points
    assert_eq!(box1.contains_point(&point(0.0, 0.0)), true);
    assert_eq!(box1.contains_point(&point(0.9, -0.5)), true);
    assert_eq!(box1.contains_point(&point(-0.5, 0.5)), true);

    // Not Containing Points
    assert_eq!(box1.contains_point(&point(2.0, 1.0)), false);
    assert_eq!(box1.contains_point(&point(1.9, -2.5)), false);
    assert_eq!(box1.contains_point(&point(-1.5, 3.5)), false);
}

#[test]
fn mod_test_intersects_aabb() {
    let box1 = AABB {
        center: XY { x: raw(0.0), y: raw(0.0) },
        half_dimension: raw(1.0),
    };
    let box2 = AABB {
        center: XY { x: raw(1.5), y: raw(1.5) },
        half_dimension: raw(1.0),
    };
    let overlap = box1.intersects_aabb(&box2);
    assert_eq!(overlap, true);

    let box3 = AABB {
        center: XY { x: raw(0.0), y: raw(0.0) },
        half_dimension: raw(1.0),
    };
    let box4 = AABB {
        center: XY { x: raw(3.0), y: raw(3.0) },
        half_dimension: raw(1.0),
    };
    let no_overlap = box3.intersects_aabb(&box4);
    assert_eq!(no_overlap, false);
}

#[test]
fn mod_test_contains_point() {
    let box1 = AABB {
        center: XY { x: raw(0.0), y: raw(0.0) },
        half_dimension: raw(1.0),
    };

    // Containing Points
    assert_eq!(box1.contains_point(&point(0.0, 0.0)), true);
    assert_eq!(box1.contains_point(&point(0.9, -0.5)), true);
    assert_eq!(box1.contains_point(&point(-0.5, 0.5)), true);

    // Not Containing Points
    assert_eq!(box1.contains_point(&point(2.0, 1.0)), false);
    assert_eq!(box1.contains_point(&point(1.9, -2.5)), false);
    assert_eq!(box1.contains_point(&point(-1.5, 3.5)), false);
}

#[test]
fn a_square_is_made_with_a_half_side_above_zero_only() {
    assert_eq!(AABB::new(raw(3.0), raw(-4.0), raw(1.5)), Ok(square(raw(3.0), raw(-4.0), raw(1.5))));
    assert_eq!(AABB::new(0, 0, 1), Ok(square(0, 0, 1)));
    assert_eq!(AABB::new(i32::MAX, i32::MIN, i32::MAX), Ok(square(i32::MAX, i32::MIN, i32::MAX)));
    assert_eq!(AABB::new(0, 0, 0), Err(ConfigError::NonPositiveHalfExtent));
    assert_eq!(AABB::new(raw(3.0), raw(3.0), -1), Err(ConfigError::NonPositiveHalfExtent));
    assert_eq!(AABB::new(5, 5, i32::MIN), Err(ConfigError::NonPositiveHalfExtent));
}

#[test]
fn a_point_on_an_edge_is_outside() {
    let square = square(raw(10.0), raw(20.0), raw(5.0));
    assert!(square.contains_point(&point(10.0, 20.0)));
    assert!(!square.contains_point(&point(5.0, 20.0)));
    assert!(!square.contains_point(&point(15.0, 20.0)));
    assert!(!square.contains_point(&point(10.0, 15.0)));
    assert!(!square.contains_point(&point(10.0, 25.0)));
    assert!(square.contains_point(&XY { x: raw(5.0) + 1, y: raw(15.0) + 1 }));
    assert!(square.contains_point(&XY { x: raw(15.0) - 1, y: raw(25.0) - 1 }));
}

#[test]
fn squares_that_touch_intersect() {
    let a = square(raw(0.0), raw(0.0), raw(1.0));
    let touching = square(raw(2.0), raw(0.0), raw(1.0));
    let apart = square(raw(2.0) + 1, raw(0.0), raw(1.0));
    let corner = square(raw(2.0), raw(-2.0), raw(1.0));
    let apart_in_y_only = square(raw(0.5), raw(2.0) + 1, raw(1.0));
    assert!(a.intersects_aabb(&touching));
    assert!(touching.intersects_aabb(&a));
    assert!(!a.intersects_aabb(&apart));
    assert!(!apart.intersects_aabb(&a));
    assert!(a.intersects_aabb(&corner));
    assert!(!a.intersects_aabb(&apart_in_y_only));
    assert!(a.intersects_aabb(&a));
}

#[test]
fn a_square_without_extent_holds_nothing() {
    let flat = square(raw(3.0), raw(3.0), 0);
    let inverted = square(raw(3.0), raw(3.0), -raw(1.0));
    assert!(!flat.contains_point(&point(3.0, 3.0)));
    assert!(!inverted.contains_point(&point(3.0, 3.0)));
    assert!(flat.intersects_aabb(&flat));
    assert!(!inverted.intersects_aabb(&inverted));
}

#[test]
fn squares_at_the_end_of_the_plane_do_not_overflow() {
    let low = square(i32::MIN, i32::MIN, i32::MAX);
    let high = square(i32::MAX, i32::MAX, i32::MAX);
    assert!(low.contains_point(&XY { x: i32::MIN, y: i32::MIN }));
    assert!(!low.contains_point(&XY { x: i32::MAX, y: 0 }));
    assert!(high.contains_point(&XY { x: i32::MAX, y: i32::MAX }));
    assert!(!low.intersects_aabb(&high));
    assert!(!low.fits_plane());
    assert!(square(0, 0, i32::MAX).fits_plane());
    assert!(!square(1, 0, i32::MAX).fits_plane());
    assert!(!square(0, 0, -1).fits_plane());
}
