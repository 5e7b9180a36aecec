use particle_life::fixed::{divide, isqrt, saturate, LIMIT, UNIT};

#[test]
fn one_unit_has_sixteen_fractional_bits() {
    assert_eq!(UNIT, 1 << 16);
    assert_eq!(LIMIT, i32::MAX);
}

#[test]
fn the_square_root_is_rounded_down() {
    assert_eq!(isqrt(0), 0);
    assert_eq!(isqrt(1), 1);
    assert_eq!(isqrt(2), 1);
    assert_eq!(isqrt(3), 1);
    assert_eq!(isqrt(4), 2);
    assert_eq!(isqrt(24), 4);
    assert_eq!(isqrt(25), 5);
    assert_eq!(isqrt(26), 5);
    assert_eq!(isqrt(1 << 64), 1 << 32);
    assert_eq!(isqrt((1 << 64) - 1), (1 << 32) - 1);
    assert_eq!(isqrt(u128::MAX), u64::MAX);
    let side: u128 = 10 * UNIT as u128;
    assert_eq!(isqrt(side * side), 10 * UNIT as u64);
    for n in 0..2000u128 {
        let r = isqrt(n) as u128;
        assert!(r * r <= n && n < (r + 1) * (r + 1));
    }
}

#[test]
fn division_rounds_toward_zero() {
    assert_eq!(divide(7, 2), 3);
    assert_eq!(divide(-7, 2), -3);
    assert_eq!(divide(-1, 2), 0);
    assert_eq!(divide(1, 2), 0);
    assert_eq!(divide(-8, 2), -4);
    assert_eq!(divide(0, 5), 0);
    assert_eq!(divide(i128::MIN, 1), i128::MIN);
}

#[test]
fn saturation_is_symmetric() {
    assert_eq!(saturate(0), 0);
    assert_eq!(saturate(12345), 12345);
    assert_eq!(saturate(-12345), -12345);
    assert_eq!(saturate(i32::MAX as i128), i32::MAX);
    assert_eq!(saturate(i32::MAX as i128 + 1), i32::MAX);
    assert_eq!(saturate(i32::MIN as i128), -i32::MAX);
    assert_eq!(saturate(i32::MIN as i128 + 1), -i32::MAX);
    assert_eq!(saturate(i128::MAX), i32::MAX);
    assert_eq!(saturate(i128::MIN), -i32::MAX);
}
