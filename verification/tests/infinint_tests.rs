use infinint::digit::{decimal_digit_nybble, decimal_digits, InfinintError};
use infinint::Infinint;
use std::cmp::Ordering;

#[test]
fn infinint_declaration() {
    let test = Infinint::from(1998);
    assert_eq!(test.negative, false);
    assert_eq!(test.digits_vec, [0b1000_1001, 0b1001_0001]);
}

#[test]
fn simple_addition_subtraction() {
    for x in 0..100 {
        for y in 0..100 {
            let a = Infinint::from(x);
            let b = Infinint::from(y);
            assert_eq!(a.add(&b), Infinint::from(x + y));
            assert_eq!(a.sub(&b), Infinint::from(x - y));
        }
    }
}

#[test]
fn complex_addition_subtraction() {
    for x in -25..25 {
        for y in -25..25 {
            let a = Infinint::from(x);
            let b = Infinint::from(y);
            assert_eq!(a.add(&b), Infinint::from(x + y));
            assert_eq!(a.sub(&b), Infinint::from(x - y));
        }
    }
}

#[test]
fn new_is_zero() {
    let x = Infinint::new();
    assert_eq!(x.negative(), false);
    assert_eq!(x.digits(), [0]);
    assert_eq!(x.digits_vec, [0x00]);
}

#[test]
fn digits_of_1998() {
    let x = Infinint::from(1998);
    assert_eq!(x.digits(), [8, 9, 9, 1]);
    assert_eq!(x.to_decimal_string(), "1,998");
}

#[test]
fn magnitude_of_137_has_padding_nybble() {
    let x = Infinint::from(137);
    assert_eq!(x.digits_vec, [0x73, 0x10]);
    assert_eq!(x.digits(), [7, 3, 1]);
}

#[test]
fn subtraction_below_zero() {
    let a = Infinint::from(5);
    let b = Infinint::from(9);
    assert_eq!(a.sub(&b), Infinint::from(-4));
}

#[test]
fn opposite_signs_cancel() {
    let a = Infinint::from(-7);
    let b = Infinint::from(7);
    let sum = a.add(&b);
    assert_eq!(sum, Infinint::from(0));
    assert_eq!(sum.digits_vec, [0x00]);
    assert_eq!(sum.negative(), false);
}

#[test]
fn negative_self_subtraction_is_zero() {
    let a = Infinint::from(-3);
    assert_eq!(a.sub(&Infinint::from(-3)), Infinint::from(0));
}

#[test]
fn terminal_carry_appends_byte() {
    let a = Infinint::from(99);
    let b = Infinint::from(1);
    let sum = a.add(&b);
    assert_eq!(sum, Infinint::from(100));
    assert_eq!(sum.digits_vec, [0x00, 0x10]);
}

#[test]
fn interior_zero_byte_is_kept() {
    let a = Infinint::from(500);
    let zero = Infinint::from(0);
    assert_eq!(a.add(&zero), Infinint::from(500));
    assert_eq!(a.sub(&zero), Infinint::from(500));
    assert_eq!(Infinint::from(101).sub(&Infinint::from(100)), Infinint::from(1));
    assert_eq!(Infinint::from(10000).add(&Infinint::from(5)), Infinint::from(10005));
}

#[test]
fn comparison_follows_integer_order() {
    assert_eq!(Infinint::from(-5).cmp(&Infinint::from(3)), Ordering::Less);
    assert_eq!(Infinint::from(3).cmp(&Infinint::from(-5)), Ordering::Greater);
    assert_eq!(Infinint::from(-5).cmp(&Infinint::from(-4)), Ordering::Less);
    assert_eq!(Infinint::from(-100).cmp(&Infinint::from(-5)), Ordering::Less);
    assert_eq!(Infinint::from(10005).cmp(&Infinint::from(10006)), Ordering::Less);
    assert_eq!(Infinint::from(10006).cmp(&Infinint::from(10005)), Ordering::Greater);
    assert_eq!(Infinint::from(10005).cmp(&Infinint::from(10005)), Ordering::Equal);
    assert_eq!(Infinint::from(0).cmp(&Infinint::from(0)), Ordering::Equal);
    assert!(Infinint::from(7).eq(&Infinint::from(7)));
    assert!(!Infinint::from(7).eq(&Infinint::from(-7)));
}

#[test]
fn negation_is_involution() {
    for x in -30..30 {
        let v = Infinint::from(x);
        assert_eq!(v.neg().neg(), v);
        assert_eq!(v.add(&v.neg()), Infinint::from(0));
        assert_eq!(v.add(&v.neg()).digits_vec, [0x00]);
    }
    let zero = Infinint::from(0);
    assert_eq!(zero.neg().negative(), false);
}

#[test]
fn digit_codec_rejects_large_nybbles() {
    assert_eq!(decimal_digit_nybble(9), Ok(9));
    assert_eq!(decimal_digit_nybble(10), Err(InfinintError::InvalidDigit));
    assert_eq!(decimal_digits(0x73), Ok((7, 3)));
    assert_eq!(decimal_digits(0xA3), Err(InfinintError::InvalidDigit));
    assert_eq!(decimal_digits(0x3A), Err(InfinintError::InvalidDigit));
}

#[test]
fn construction_from_all_widths() {
    assert_eq!(Infinint::from(42u8), Infinint::from_u128(42));
    assert_eq!(Infinint::from(-42i8), Infinint::from_i128(-42));
    assert_eq!(Infinint::from(42u16), Infinint::from_u128(42));
    assert_eq!(Infinint::from(-42i16), Infinint::from_i128(-42));
    assert_eq!(Infinint::from(42u32), Infinint::from_u128(42));
    assert_eq!(Infinint::from(-42i32), Infinint::from_i128(-42));
    assert_eq!(Infinint::from(42u64), Infinint::from_u128(42));
    assert_eq!(Infinint::from(-42i64), Infinint::from_i128(-42));
    assert_eq!(Infinint::from(42usize), Infinint::from_u128(42));
    assert_eq!(Infinint::from(-42isize), Infinint::from_i128(-42));
    assert_eq!(Infinint::from(42u128), Infinint::from_u128(42));
    assert_eq!(Infinint::from(-42i128), Infinint::from_i128(-42));
    let negated_min = Infinint::from_i128(i128::MIN).neg();
    assert_eq!(negated_min, Infinint::from_u128(1u128 << 127));
}

#[test]
fn display_grouping() {
    assert_eq!(Infinint::from(0).to_decimal_string(), "0");
    assert_eq!(Infinint::from(7).to_decimal_string(), "7");
    assert_eq!(Infinint::from(100).to_decimal_string(), "100");
    assert_eq!(Infinint::from(1000).to_decimal_string(), "1,000");
    assert_eq!(Infinint::from(1234567).to_decimal_string(), "1,234,567");
    assert_eq!(Infinint::from(-1998).to_decimal_string(), "-1,998");
    assert_eq!(Infinint::from(123456).to_decimal_string(), "123,456");
    assert_eq!(Infinint::from(1234567).to_plain_decimal_string(), "1234567");
    assert_eq!(Infinint::from(-1998).to_plain_decimal_string(), "-1998");
    assert_eq!(Infinint::from(0).to_plain_decimal_string(), "0");
}

#[test]
fn large_values_round_trip_through_arithmetic() {
    let a = Infinint::from(123_456_789_012_345_678_901_234_567_890u128);
    let b = Infinint::from(987_654_321_098_765_432_109_876_543_210u128);
    let sum = a.add(&b);
    assert_eq!(
        sum,
        Infinint::from(123_456_789_012_345_678_901_234_567_890u128
            + 987_654_321_098_765_432_109_876_543_210u128)
    );
    assert_eq!(sum.sub(&b), a);
    assert_eq!(sum.sub(&a), b);
    assert_eq!(
        sum.to_decimal_string(),
        "1,111,111,110,111,111,111,011,111,111,100"
    );
}

#[test]
fn digits_round_trip_concrete() {
    let x = Infinint::from(10005);
    assert_eq!(x.digits_vec, [0x50, 0x00, 0x10]);
    assert_eq!(x.digits(), [5, 0, 0, 0, 1]);
}
