//! Arithmetic building blocks: integer square root, double-word products
//! and their comparison.

use amm_farming::math::{integer_sqrt, min_u128, mul_wide, wide_geq};

#[test]
fn sqrt_small_values() {
    assert_eq!(integer_sqrt(0), 0);
    assert_eq!(integer_sqrt(1), 1);
    assert_eq!(integer_sqrt(3), 1);
    assert_eq!(integer_sqrt(4), 2);
    assert_eq!(integer_sqrt(15), 3);
    assert_eq!(integer_sqrt(16), 4);
}

#[test]
fn sqrt_first_deposit_product() {
    assert_eq!(integer_sqrt(1000 * 4000), 2000);
}

#[test]
fn sqrt_largest_word() {
    assert_eq!(integer_sqrt(u128::MAX), (1u128 << 64) - 1);
}

#[test]
fn sqrt_perfect_square_boundary() {
    let r = (1u128 << 64) - 1;
    assert_eq!(integer_sqrt(r * r), r);
    assert_eq!(integer_sqrt(r * r - 1), r - 1);
}

#[test]
fn mul_wide_small() {
    assert_eq!(mul_wide(6, 7), (0, 42));
    assert_eq!(mul_wide(0, u128::MAX), (0, 0));
}

#[test]
fn mul_wide_carries() {
    // (2^128 - 1)^2 == (2^128 - 2) * 2^128 + 1
    assert_eq!(mul_wide(u128::MAX, u128::MAX), (u128::MAX - 1, 1));
    // (2^64)^2 == 2^128
    let h = 1u128 << 64;
    assert_eq!(mul_wide(h, h), (1, 0));
}

#[test]
fn wide_geq_orders_by_high_then_low() {
    assert!(wide_geq((1, 0), (0, u128::MAX)));
    assert!(wide_geq((5, 7), (5, 7)));
    assert!(wide_geq((5, 8), (5, 7)));
    assert!(!wide_geq((5, 6), (5, 7)));
    assert!(!wide_geq((4, u128::MAX), (5, 0)));
}

#[test]
fn min_of_two_words() {
    assert_eq!(min_u128(3, 9), 3);
    assert_eq!(min_u128(9, 3), 3);
    assert_eq!(min_u128(4, 4), 4);
}
