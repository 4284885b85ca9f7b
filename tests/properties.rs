use fixed::convert::{from_str_i128, from_str_i16, from_str_i32, from_str_i8, from_str_u128, from_str_u16, from_str_u8};
use fixed::fraction::{bin_str_to_bin, get_frac128, hex_str_to_bin, oct_str_to_bin};
use fixed::tokenizer::{parse, ParseErrorKind, ParseFixedError};
use fixed::wide::{div_wide, mul_hi_lo, wide_shl, wide_shr};
use fixed::Widest;

fn kind_of<T>(r: Result<T, ParseFixedError>) -> ParseErrorKind {
    match r {
        Ok(_) => panic!("expected an error"),
        Err(e) => e.kind,
    }
}

#[test]
fn signed_one_fraction_byte_boundaries() {
    assert_eq!(from_str_i8("-0.501", 10, 0, 8), Ok(-128));
    assert_eq!(kind_of(from_str_i8("-0.502", 10, 0, 8)), ParseErrorKind::Overflow);
    assert_eq!(from_str_i8("0.498", 10, 0, 8), Ok(0x7F));
    assert_eq!(kind_of(from_str_i8("0.499", 10, 0, 8)), ParseErrorKind::Overflow);
}

#[test]
fn unsigned_one_fraction_byte_boundaries() {
    assert_eq!(from_str_u8("0.498", 10, 0, 8), Ok(0x7F));
    assert_eq!(from_str_u8("0.499", 10, 0, 8), Ok(0x80));
    assert_eq!(from_str_u8("0.998", 10, 0, 8), Ok(0xFF));
    assert_eq!(kind_of(from_str_u8("0.999", 10, 0, 8)), ParseErrorKind::Overflow);
    assert_eq!(kind_of(from_str_u8("1", 10, 0, 8)), ParseErrorKind::Overflow);
    assert_eq!(kind_of(from_str_u8("-0", 10, 0, 8)), ParseErrorKind::InvalidDigit);
}

#[test]
fn same_value_in_binary_octal_hex() {
    let bin = from_str_u8("101.1", 2, 4, 4);
    let oct = from_str_u8("5.4", 8, 4, 4);
    let hex = from_str_u8("5.8", 16, 4, 4);
    assert_eq!(bin, Ok(0x58));
    assert_eq!(oct, Ok(0x58));
    assert_eq!(hex, Ok(0x58));
    let bin = from_str_i16("-1100.0011", 2, 8, 8);
    let oct = from_str_i16("-14.14", 8, 8, 8);
    let hex = from_str_i16("-C.3", 16, 8, 8);
    assert_eq!(bin, Ok(-0x0C30));
    assert_eq!(oct, bin);
    assert_eq!(hex, bin);
}

#[test]
fn zeros_past_the_digit_limit_change_nothing() {
    assert_eq!(from_str_i8("-0.501", 10, 0, 8), from_str_i8("-0.50100000", 10, 0, 8));
    assert_eq!(from_str_u16("0.499992", 10, 0, 16), from_str_u16("0.4999920000000", 10, 0, 16));
    assert_eq!(from_str_u8("101.1", 2, 4, 4), from_str_u8("101.1000000000", 2, 4, 4));
    // Only three decimal digits decide eight fraction bits.
    assert_eq!(from_str_u8("0.0019", 10, 0, 8), Ok(0));
    assert_eq!(from_str_u8("0.0019", 10, 0, 8), from_str_u8("0.001", 10, 0, 8));
}

#[test]
fn widest_signed_boundaries() {
    assert_eq!(
        from_str_i128("-0.500000000000000000000000000000000000001", 10, 0, 128),
        Ok(i128::MIN)
    );
    assert_eq!(
        kind_of(from_str_i128("-0.500000000000000000000000000000000000002", 10, 0, 128)),
        ParseErrorKind::Overflow
    );
    assert_eq!(from_str_u128("0.8", 16, 0, 128), Ok(1u128 << 127));
}

#[test]
fn malformed_literals() {
    let s = "something completely different (_!_!_)";
    assert_eq!(kind_of(from_str_i32(s, 10, 16, 16)), ParseErrorKind::InvalidDigit);
    assert_eq!(kind_of(from_str_i32(".1.", 10, 16, 16)), ParseErrorKind::TooManyPoints);
    assert_eq!(kind_of(from_str_i32("+.", 10, 16, 16)), ParseErrorKind::NoDigits);
    assert_eq!(kind_of(from_str_i32("1+2", 10, 16, 16)), ParseErrorKind::InvalidDigit);
    assert_eq!(kind_of(from_str_i32("1-2", 10, 16, 16)), ParseErrorKind::InvalidDigit);
    assert_eq!(kind_of(from_str_u16("-1", 10, 8, 8)), ParseErrorKind::InvalidDigit);
    assert_eq!(kind_of(from_str_u16("", 10, 8, 8)), ParseErrorKind::NoDigits);
    assert_eq!(kind_of(from_str_u16("12", 2, 8, 8)), ParseErrorKind::InvalidDigit);
    assert_eq!(kind_of(from_str_u16("1.2é", 10, 8, 8)), ParseErrorKind::InvalidDigit);
    assert_eq!(kind_of(from_str_u16("1..é", 10, 8, 8)), ParseErrorKind::TooManyPoints);
}

#[test]
fn spans_cover_the_literal() {
    let p = parse("+0017.250", false, 10).unwrap();
    assert!(!p.neg);
    assert_eq!(p.int_digits, &b"0017"[..]);
    assert_eq!(p.frac_digits, &b"250"[..]);
    let p = parse("-ff.", true, 16).unwrap();
    assert!(p.neg);
    assert_eq!(p.int_digits, &b"ff"[..]);
    assert_eq!(p.frac_digits, &b""[..]);
}

#[test]
fn wide_multiply_then_divide() {
    let cases = [
        (0u128, 1u128),
        (1, u128::MAX),
        (u128::MAX, u128::MAX),
        (123_456_789_012_345_678_901_234_567, 1_000_000_000_000_000_000_000_000_000),
        (u128::MAX / 3, 7),
    ];
    for &(a, b) in &cases {
        let (hi, lo) = mul_hi_lo(a, b);
        assert!(hi < b);
        assert_eq!(div_wide(hi, lo, b), a);
    }
    assert_eq!(mul_hi_lo(u128::MAX, u128::MAX), (u128::MAX - 1, 1));
    assert_eq!(mul_hi_lo(1u128 << 64, 1u128 << 64), (1, 0));
}

#[test]
fn wide_shifts() {
    assert_eq!(wide_shl(0, 1, 127), (0, 1u128 << 127));
    assert_eq!(wide_shl(1, 1u128 << 127, 1), (3, 0));
    assert_eq!(wide_shr(3, 0, 1), (1, 1u128 << 127));
    assert_eq!(wide_shr(5, 7, 128), (0, 5));
    assert_eq!(wide_shr(5, 7, 0), (5, 7));
}

#[test]
fn exact_base_rounding() {
    // 0.1 in binary is a half: it rounds up to a whole unit with no fraction bits.
    assert_eq!(bin_str_to_bin(b"1", 0), None);
    assert_eq!(bin_str_to_bin(b"011", 2), Some(2));
    assert_eq!(bin_str_to_bin(b"0101", 3), Some(3));
    // 0.7 octal is 0.875: two bits give 3.5 units, which rounds up to a whole.
    assert_eq!(oct_str_to_bin(b"7", 2), None);
    assert_eq!(oct_str_to_bin(b"34", 4), Some(0b0111));
    assert_eq!(hex_str_to_bin(b"8", 1), Some(1));
    assert_eq!(hex_str_to_bin(b"aB", 8), Some(0xAB));
    assert_eq!(hex_str_to_bin(b"AB", 6), Some(0x2B));
    assert_eq!(hex_str_to_bin(b"", 5), Some(0));
}

#[test]
fn wide_fraction_fields() {
    assert_eq!(get_frac128(b"8", 16, 128), Some(1u128 << 127));
    assert_eq!(get_frac128(b"4", 8, 100), Some(1u128 << 99));
    assert_eq!(get_frac128(b"5", 10, 128), Some(1u128 << 127));
    assert_eq!(get_frac128(b"", 10, 128), Some(0));
    assert_eq!(get_frac128(b"999999999999999999999999999999999999999999999999999999", 10, 128), None);
    assert_eq!(get_frac128(b"25", 10, 2), Some(1));
}

#[test]
fn integer_and_fraction_together() {
    assert_eq!(from_str_u16("0.5", 10, 8, 8), Ok(0x0080));
    assert_eq!(from_str_u16("000255.99", 10, 8, 8), Ok(0xFFFD));
    assert_eq!(from_str_u16("255.999", 10, 8, 8).map_err(|e| e.kind), Err(ParseErrorKind::Overflow));
    assert_eq!(from_str_i16("-128.", 10, 8, 8), Ok(i16::MIN));
    assert_eq!(from_str_u8("15.97", 10, 4, 4).map_err(|e| e.kind), Err(ParseErrorKind::Overflow));
    assert_eq!(
        from_str_u128("340282366920938463463374607431768211456", 10, 128, 0).map_err(|e| e.kind),
        Err(ParseErrorKind::Overflow)
    );
}

#[test]
fn error_messages() {
    let msg = |kind| ParseFixedError { kind }.message();
    assert_eq!(msg(ParseErrorKind::InvalidDigit), "invalid digit found in string");
    assert_eq!(msg(ParseErrorKind::NoDigits), "string has no digits");
    assert_eq!(msg(ParseErrorKind::TooManyPoints), "more than one decimal point found in string");
    assert_eq!(msg(ParseErrorKind::Overflow), "overflow");
}

#[test]
fn widest_holds_both_kinds() {
    match Widest::Negative(-1) {
        Widest::Negative(v) => assert_eq!(v, -1),
        Widest::Unsigned(_) => panic!("wrong variant"),
    }
    match Widest::Unsigned(u128::MAX) {
        Widest::Unsigned(v) => assert_eq!(v, u128::MAX),
        Widest::Negative(_) => panic!("wrong variant"),
    }
}
