use triangular_arbitrage_bot::scaled_decimals::{str_to_u128, try_str_to_u128, FastMath, SCALE};

fn to_printable(val: u128) -> f64 {
    val as f64 / SCALE as f64
}

#[test]
fn integer_into_u128() {
    let result = str_to_u128("100");
    assert_eq!(result, 100000000000);
}

#[test]
fn float_into_u128() {
    let result = str_to_u128("150.75");
    assert_eq!(result, 150750000000)
}

#[test]
fn into_printable_u128() {
    let scaled = str_to_u128("100");
    let result = to_printable(scaled);
    assert_eq!(result, 100.0);
}

#[test]
fn division_u128() {
    let result = FastMath::div(str_to_u128("20"), str_to_u128("5"));
    let print = to_printable(result);
    assert_eq!(print, 4.0);
}

#[test]
fn multiplication_u128() {
    let result = FastMath::mul(str_to_u128("4"), str_to_u128("5"));
    let print = to_printable(result);
    assert_eq!(print, 20.0);
}

#[test]
fn price_keeps_nine_fraction_digits() {
    assert_eq!(str_to_u128("0.1234567891"), 123456789);
    assert_eq!(str_to_u128("0.000000001"), 1);
    assert_eq!(str_to_u128("66123.45"), 66123450000000);
}

#[test]
fn price_skips_non_digits_in_fraction() {
    assert_eq!(str_to_u128("1.x5"), 1500000000);
    assert_eq!(str_to_u128("2.5-0"), 2500000000);
}

#[test]
fn price_reads_only_up_to_second_dot() {
    assert_eq!(str_to_u128("1.2.3"), 1200000000);
}

#[test]
fn price_with_unreadable_integer_part_counts_zero_units() {
    assert_eq!(str_to_u128("abc"), 0);
    assert_eq!(str_to_u128(""), 0);
    assert_eq!(str_to_u128(".5"), 500000000);
    assert_eq!(str_to_u128("-3.25"), 250000000);
    assert_eq!(str_to_u128(" 7"), 0);
}

#[test]
fn price_integer_part_takes_plus_sign() {
    assert_eq!(str_to_u128("+5"), 5000000000);
    assert_eq!(str_to_u128("+"), 0);
    assert_eq!(str_to_u128("007.5"), 7500000000);
}

#[test]
fn price_that_overflows_is_refused() {
    assert_eq!(try_str_to_u128("340282366920938463463374607432"), None);
    assert_eq!(try_str_to_u128("340282366920938463463374607431.768211456"), None);
    assert_eq!(
        try_str_to_u128("340282366920938463463374607431.768211455"),
        Some(u128::MAX)
    );
    assert_eq!(
        try_str_to_u128("340282366920938463463374607431"),
        Some(340282366920938463463374607431000000000)
    );
    assert_eq!(try_str_to_u128("12.5"), Some(12500000000));
}

#[test]
fn fixed_mul_truncates() {
    assert_eq!(FastMath::mul(1_500_000_000, 1_500_000_000), 2_250_000_000);
    assert_eq!(FastMath::mul(1, 1), 0);
    assert_eq!(FastMath::mul(123_456_789, SCALE), 123_456_789);
}

#[test]
fn fixed_div_truncates() {
    assert_eq!(FastMath::div(1_000_000_000, 3_000_000_000), 333_333_333);
    assert_eq!(FastMath::div(7, SCALE), 7);
}

#[test]
fn inverse_div_is_reciprocal() {
    assert_eq!(FastMath::inverse_div(SCALE), SCALE);
    assert_eq!(FastMath::inverse_div(4_000_000_000), 250_000_000);
    assert_eq!(FastMath::inverse_div(3_000_000_000), 333_333_333);
    assert_eq!(FastMath::inverse_div(1), 1_000_000_000_000_000_000);
}

#[test]
fn saturate_complements_to_one_unit() {
    assert_eq!(FastMath::saturate(1_000_000), 999_000_000);
    assert_eq!(FastMath::saturate(0), SCALE);
    assert_eq!(FastMath::saturate(SCALE), 0);
    assert_eq!(FastMath::saturate(5 * SCALE), 0);
    assert_eq!(FastMath::saturate(250_000_000) + 250_000_000, SCALE);
}

#[test]
fn compare_scale_is_strict() {
    assert!(!FastMath::compare_scale(SCALE));
    assert!(FastMath::compare_scale(SCALE + 1));
    assert!(!FastMath::compare_scale(0));
}

#[test]
fn whole_units_multiply_and_divide_as_integers() {
    assert_eq!(FastMath::mul(6 * SCALE, 7 * SCALE), 42 * SCALE);
    assert_eq!(FastMath::div(42 * SCALE, 7 * SCALE), 6 * SCALE);
}

#[test]
fn fraction_is_cut_after_nine_digits_not_rounded() {
    assert_eq!(str_to_u128("1.1234567899999"), str_to_u128("1.123456789"));
    assert_eq!(str_to_u128("1.1234567899999"), 1_123_456_789);
}

#[test]
fn fraction_non_digits_and_second_dot_are_ignored() {
    assert_eq!(str_to_u128("1.2a3"), str_to_u128("1.23"));
    assert_eq!(str_to_u128("1.5.99"), str_to_u128("1.5"));
}

#[test]
fn printed_price_reads_back() {
    for x in [0u128, 1, 999_999_999, SCALE, 150_750_000_000, 123_456_789_012_345, u128::MAX] {
        let text = format!("{}.{:09}", x / SCALE, x % SCALE);
        assert_eq!(str_to_u128(&text), x);
    }
}
