//! Exact-value tests of the fixed-point arithmetic core.

use baskin_rs::fx::{
    fx_add, fx_div, fx_exp2, fx_from_usize, fx_log2, fx_mul, fx_pow, fx_sub, FX_HALF, FX_ONE,
};

const T: i64 = FX_ONE;

#[test]
fn add_and_sub_are_exact_in_range() {
    assert_eq!(fx_add(3 * T, 4 * T), 7 * T);
    assert_eq!(fx_sub(3 * T, 4 * T), -T);
    assert_eq!(fx_add(-T, T), 0);
}

#[test]
fn add_saturates_at_the_i64_range() {
    assert_eq!(fx_add(i64::MAX, 1), i64::MAX);
    assert_eq!(fx_sub(i64::MIN, 1), i64::MIN);
}

#[test]
fn mul_and_div_are_exact_on_dyadic_values() {
    assert_eq!(fx_mul(2 * T, 3 * T), 6 * T);
    assert_eq!(fx_mul(FX_HALF, FX_HALF), T / 4);
    assert_eq!(fx_mul(-2 * T, 3 * T), -6 * T);
    assert_eq!(fx_div(T, 2 * T), FX_HALF);
    assert_eq!(fx_div(-T, 2 * T), -FX_HALF);
    assert_eq!(fx_div(3 * T, T), 3 * T);
}

#[test]
fn mul_saturates() {
    assert_eq!(fx_mul(i64::MAX, 4 * T), i64::MAX);
    assert_eq!(fx_mul(i64::MAX, -4 * T), i64::MIN);
}

#[test]
fn from_usize_scales_by_one() {
    assert_eq!(fx_from_usize(0), 0);
    assert_eq!(fx_from_usize(1024), 1024 * T);
}

#[test]
fn log2_is_exact_on_powers_of_two() {
    assert_eq!(fx_log2(4 * T), 2 * T);
    assert_eq!(fx_log2(T), 0);
    assert_eq!(fx_log2(FX_HALF), -T);
}

#[test]
fn exp2_is_exact_on_integer_exponents() {
    assert_eq!(fx_exp2(2 * T), 4 * T);
    assert_eq!(fx_exp2(0), T);
    assert_eq!(fx_exp2(-T), FX_HALF);
}

#[test]
fn pow_matches_the_square_root_table() {
    // 2^(1/2): the top entry of the fractional-exponent factor table.
    assert_eq!(fx_pow(2 * T, FX_HALF), 6074001000);
    assert_eq!(fx_pow(4 * T, FX_HALF), 2 * T);
    assert_eq!(fx_pow(T, 429496730), T);
    assert_eq!(fx_pow(0, FX_HALF), 0);
    assert_eq!(fx_pow(-T, FX_HALF), 0);
}
