use fixed::convert::{
    from_str_i128, from_str_i16, from_str_i32, from_str_i64, from_str_i8, from_str_u128,
    from_str_u16, from_str_u32, from_str_u64, from_str_u8,
};
use fixed::fraction::{dec13_to_bin32, dec27_27_to_bin128, dec27_to_bin64, dec3_to_bin8, dec6_to_bin16};
use fixed::tokenizer::{parse, Parse, ParseErrorKind, ParseFixedError};

#[test]
fn check_dec3() {
    let two_pow = 8f64.exp2();
    let limit = 1000;
    for i in 0..limit {
    let ans = dec3_to_bin8(i, 0);
    let approx = two_pow * f64::from(i) / f64::from(limit);
    let error = (ans.map(f64::from).unwrap_or(two_pow) - approx).abs();
    assert!(
        error <= 0.5,
        "i {} ans {:?}  approx {} error {}",
        i,
        ans,
        approx,
        error
    );
    }
}

#[test]
fn check_dec6() {
    let two_pow = 16f64.exp2();
    let limit = 1_000_000;
    for i in 0..limit {
    let ans = dec6_to_bin16(i, 0);
    let approx = two_pow * f64::from(i) / f64::from(limit);
    let error = (ans.map(f64::from).unwrap_or(two_pow) - approx).abs();
    assert!(
        error <= 0.5,
        "i {} ans {:?}  approx {} error {}",
        i,
        ans,
        approx,
        error
    );
    }
}

#[test]
fn check_dec13() {
    let two_pow = 32f64.exp2();
    let limit = 10_000_000_000_000;
    for iter in 0..1_000_000 {
    for &i in &[
        iter,
        limit / 4 - 1 - iter,
        limit / 4 + iter,
        limit / 3 - 1 - iter,
        limit / 3 + iter,
        limit / 2 - 1 - iter,
        limit / 2 + iter,
        limit - iter - 1,
    ] {
        let ans = dec13_to_bin32(i, 0);
        let approx = two_pow * i as f64 / limit as f64;
        let error = (ans.map(f64::from).unwrap_or(two_pow) - approx).abs();
        assert!(
        error <= 0.5,
        "i {} ans {:?}  approx {} error {}",
        i,
        ans,
        approx,
        error
        );
    }
    }
}

#[test]
fn check_dec27() {
    let two_pow = 64f64.exp2();
    let limit = 1_000_000_000_000_000_000_000_000_000;
    for iter in 0..200_000 {
    for &i in &[
        iter,
        limit / 4 - 1 - iter,
        limit / 4 + iter,
        limit / 3 - 1 - iter,
        limit / 3 + iter,
        limit / 2 - 1 - iter,
        limit / 2 + iter,
        limit - iter - 1,
    ] {
        let ans = dec27_to_bin64(i, 0);
        let approx = two_pow * i as f64 / limit as f64;
        let error = (ans.map(|x| x as f64).unwrap_or(two_pow) - approx).abs();
        assert!(
        error <= 0.5,
        "i {} ans {:?}  approx {} error {}",
        i,
        ans,
        approx,
        error
        );
    }
    }
}

#[test]
fn check_dec27_27() {
    let nines = 10u128.pow(27) - 1;
    let zeros = 0;
    let too_big = dec27_27_to_bin128(nines, nines, 0);
    assert_eq!(too_big, None);
    let big = dec27_27_to_bin128(nines, zeros, 0);
    assert_eq!(
    big,
    Some(340_282_366_920_938_463_463_374_607_091_485_844_535)
    );
    let small = dec27_27_to_bin128(zeros, nines, 0);
    assert_eq!(small, Some(340_282_366_921));
    let zero = dec27_27_to_bin128(zeros, zeros, 0);
    assert_eq!(zero, Some(0));
    let x = dec27_27_to_bin128(
    123_456_789_012_345_678_901_234_567,
    987_654_321_098_765_432_109_876_543,
    0,
    );
    assert_eq!(x, Some(42_010_168_377_579_896_403_540_037_811_203_677_112));
}

#[test]
fn check_parse_bounds() {
    let Parse { neg, int_digits, frac_digits } = parse("-12.34", true, 10).unwrap();
    assert_eq!((neg, int_digits, frac_digits), (true, &b"12"[..], &b"34"[..]));
    let Parse { neg, int_digits, frac_digits } = parse("12.", true, 10).unwrap();
    assert_eq!((neg, int_digits, frac_digits), (false, &b"12"[..], &b""[..]));
    let Parse { neg, int_digits, frac_digits } = parse("+.34", false, 10).unwrap();
    assert_eq!((neg, int_digits, frac_digits), (false, &b""[..], &b"34"[..]));
    let Parse { neg, int_digits, frac_digits } = parse("0", false, 10).unwrap();
    assert_eq!((neg, int_digits, frac_digits), (false, &b"0"[..], &b""[..]));
    let Parse { neg, int_digits, frac_digits } = parse("-.C1A0", true, 16).unwrap();
    assert_eq!((neg, int_digits, frac_digits), (true, &b""[..], &b"C1A0"[..]));

    let ParseFixedError { kind } = parse("0 ", true, 10).unwrap_err();
    assert_eq!(kind, ParseErrorKind::InvalidDigit);
    let ParseFixedError { kind } = parse("+.", true, 10).unwrap_err();
    assert_eq!(kind, ParseErrorKind::NoDigits);
    let ParseFixedError { kind } = parse(".1.", true, 10).unwrap_err();
    assert_eq!(kind, ParseErrorKind::TooManyPoints);
    let ParseFixedError { kind } = parse("1+2", true, 10).unwrap_err();
    assert_eq!(kind, ParseErrorKind::InvalidDigit);
    let ParseFixedError { kind } = parse("1-2", true, 10).unwrap_err();
    assert_eq!(kind, ParseErrorKind::InvalidDigit);
    let ParseFixedError { kind } = parse("-12", false, 10).unwrap_err();
    assert_eq!(kind, ParseErrorKind::InvalidDigit);
}

/// The layout of a fixed-point type named like `I4F4` or `U0F128`: signed,
/// integer bits, fraction bits.
fn layout(name: &str) -> (bool, u32, u32) {
    let signed = name.starts_with('I');
    let f = name.find('F').unwrap();
    let int_nbits = name[1..f].parse().unwrap();
    let frac_nbits = name[f + 1..].parse().unwrap();
    (signed, int_nbits, frac_nbits)
}

/// Parses `s` in base 10 for the type named `ty`, giving the raw bits widened
/// to 128 bits.
fn parse_as(ty: &str, s: &str) -> Result<i128, ParseFixedError> {
    let (signed, int_nbits, frac_nbits) = layout(ty);
    match (signed, int_nbits + frac_nbits) {
    (true, 8) => from_str_i8(s, 10, int_nbits, frac_nbits).map(i128::from),
    (true, 16) => from_str_i16(s, 10, int_nbits, frac_nbits).map(i128::from),
    (true, 32) => from_str_i32(s, 10, int_nbits, frac_nbits).map(i128::from),
    (true, 64) => from_str_i64(s, 10, int_nbits, frac_nbits).map(i128::from),
    (true, 128) => from_str_i128(s, 10, int_nbits, frac_nbits),
    (false, 8) => from_str_u8(s, 10, int_nbits, frac_nbits).map(i128::from),
    (false, 16) => from_str_u16(s, 10, int_nbits, frac_nbits).map(i128::from),
    (false, 32) => from_str_u32(s, 10, int_nbits, frac_nbits).map(i128::from),
    (false, 64) => from_str_u64(s, 10, int_nbits, frac_nbits).map(i128::from),
    (false, 128) => from_str_u128(s, 10, int_nbits, frac_nbits).map(|x| x as i128),
    _ => unreachable!(),
    }
}

fn assert_ok(ty: &str, s: &str, bits: i128) {
    match parse_as(ty, s) {
    Ok(f) => assert_eq!(f, bits, "{} as {}", s, ty),
    Err(e) => panic!("could not parse {} as {}: {}", s, ty, e.message()),
    }
}

fn assert_err(ty: &str, s: &str, kind: ParseErrorKind) {
    match parse_as(ty, s) {
    Ok(f) => panic!("incorrectly parsed {} as {} bits {}", s, ty, f),
    Err(ParseFixedError { kind: err }) => assert_eq!(err, kind, "{} as {}", s, ty),
    }
}

#[test]
fn check_i8_u8_from_str() {
    assert_err("I0F8", "-1", ParseErrorKind::Overflow);
    assert_err("I0F8", "-0.502", ParseErrorKind::Overflow);
    assert_ok("I0F8", "-0.501", -0x80);
    assert_ok("I0F8", "0.498", 0x7F);
    assert_err("I0F8", "0.499", ParseErrorKind::Overflow);
    assert_err("I0F8", "1", ParseErrorKind::Overflow);

    assert_err("I4F4", "-8.04", ParseErrorKind::Overflow);
    assert_ok("I4F4", "-8.03", -0x80);
    assert_ok("I4F4", "7.96", 0x7F);
    assert_err("I4F4", "7.97", ParseErrorKind::Overflow);

    assert_err("I8F0", "-128.5", ParseErrorKind::Overflow);
    assert_ok("I8F0", "-128.499", -0x80);
    assert_ok("I8F0", "127.499", 0x7F);
    assert_err("I8F0", "127.5", ParseErrorKind::Overflow);

    assert_err("U0F8", "-0", ParseErrorKind::InvalidDigit);
    assert_ok("U0F8", "0.498", 0x7F);
    assert_ok("U0F8", "0.499", 0x80);
    assert_ok("U0F8", "0.998", 0xFF);
    assert_err("U0F8", "0.999", ParseErrorKind::Overflow);
    assert_err("U0F8", "1", ParseErrorKind::Overflow);

    assert_ok("U4F4", "7.96", 0x7F);
    assert_ok("U4F4", "7.97", 0x80);
    assert_ok("U4F4", "15.96", 0xFF);
    assert_err("U4F4", "15.97", ParseErrorKind::Overflow);

    assert_ok("U8F0", "127.499", 0x7F);
    assert_ok("U8F0", "127.5", 0x80);
    assert_ok("U8F0", "255.499", 0xFF);
    assert_err("U8F0", "255.5", ParseErrorKind::Overflow);
}

#[test]
fn check_i16_u16_from_str() {
    assert_err("I0F16", "-1", ParseErrorKind::Overflow);
    assert_err("I0F16", "-0.500008", ParseErrorKind::Overflow);
    assert_ok("I0F16", "-0.500007", -0x8000);
    assert_ok("I0F16", "0.499992", 0x7FFF);
    assert_err("I0F16", "0.499993", ParseErrorKind::Overflow);
    assert_err("I0F16", "1", ParseErrorKind::Overflow);

    assert_err("I8F8", "-128.002", ParseErrorKind::Overflow);
    assert_ok("I8F8", "-128.001", -0x8000);
    assert_ok("I8F8", "127.998", 0x7FFF);
    assert_err("I8F8", "127.999", ParseErrorKind::Overflow);

    assert_err("I16F0", "-32768.5", ParseErrorKind::Overflow);
    assert_ok("I16F0", "-32768.499999", -0x8000);
    assert_ok("I16F0", "32767.499999", 0x7FFF);
    assert_err("I16F0", "32767.5", ParseErrorKind::Overflow);

    assert_err("U0F16", "-0", ParseErrorKind::InvalidDigit);
    assert_ok("U0F16", "0.499992", 0x7FFF);
    assert_ok("U0F16", "0.499993", 0x8000);
    assert_ok("U0F16", "0.999992", 0xFFFF);
    assert_err("U0F16", "0.999993", ParseErrorKind::Overflow);
    assert_err("U0F16", "1", ParseErrorKind::Overflow);

    assert_ok("U8F8", "127.998", 0x7FFF);
    assert_ok("U8F8", "127.999", 0x8000);
    assert_ok("U8F8", "255.998", 0xFFFF);
    assert_err("U8F8", "255.999", ParseErrorKind::Overflow);

    assert_ok("U16F0", "32767.499999", 0x7FFF);
    assert_ok("U16F0", "32767.5", 0x8000);
    assert_ok("U16F0", "65535.499999", 0xFFFF);
    assert_err("U16F0", "65535.5", ParseErrorKind::Overflow);
}

#[test]
fn check_i32_u32_from_str() {
    assert_err("I0F32", "-1", ParseErrorKind::Overflow);
    assert_err("I0F32", "-0.5000000002", ParseErrorKind::Overflow);
    assert_ok("I0F32", "-0.5000000001", -0x8000_0000);
    assert_ok("I0F32", "0.4999999998", 0x7FFF_FFFF);
    assert_err("I0F32", "0.4999999999", ParseErrorKind::Overflow);
    assert_err("I0F32", "1", ParseErrorKind::Overflow);

    assert_err("I16F16", "-32768.000008", ParseErrorKind::Overflow);
    assert_ok("I16F16", "-32768.000007", -0x8000_0000);
    assert_ok("I16F16", "32767.999992", 0x7FFF_FFFF);
    assert_err("I16F16", "32767.999993", ParseErrorKind::Overflow);

    assert_err("I32F0", "-2147483648.5", ParseErrorKind::Overflow);
    assert_ok("I32F0", "-2147483648.4999999999", -0x8000_0000);
    assert_ok("I32F0", "2147483647.4999999999", 0x7FFF_FFFF);
    assert_err("I32F0", "2147483647.5", ParseErrorKind::Overflow);

    assert_err("U0F32", "-0", ParseErrorKind::InvalidDigit);
    assert_ok("U0F32", "0.4999999998", 0x7FFF_FFFF);
    assert_ok("U0F32", "0.4999999999", 0x8000_0000);
    assert_ok("U0F32", "0.9999999998", 0xFFFF_FFFF);
    assert_err("U0F32", "0.9999999999", ParseErrorKind::Overflow);
    assert_err("U0F32", "1", ParseErrorKind::Overflow);

    assert_ok("U16F16", "32767.999992", 0x7FFF_FFFF);
    assert_ok("U16F16", "32767.999993", 0x8000_0000);
    assert_ok("U16F16", "65535.999992", 0xFFFF_FFFF);
    assert_err("U16F16", "65535.999993", ParseErrorKind::Overflow);

    assert_ok("U32F0", "2147483647.4999999999", 0x7FFF_FFFF);
    assert_ok("U32F0", "2147483647.5", 0x8000_0000);
    assert_ok("U32F0", "4294967295.4999999999", 0xFFFF_FFFF);
    assert_err("U32F0", "4294967295.5", ParseErrorKind::Overflow);
}

#[test]
fn check_i64_u64_from_str() {
    assert_err("I0F64", "-1", ParseErrorKind::Overflow);
    assert_err("I0F64", "-0.50000000000000000003", ParseErrorKind::Overflow);
    assert_ok("I0F64", "-0.50000000000000000002", -0x8000_0000_0000_0000);
    assert_ok("I0F64", "0.49999999999999999997", 0x7FFF_FFFF_FFFF_FFFF);
    assert_err("I0F64", "0.49999999999999999998", ParseErrorKind::Overflow);
    assert_err("I0F64", "1", ParseErrorKind::Overflow);

    assert_err("I32F32", "-2147483648.0000000002", ParseErrorKind::Overflow);
    assert_ok("I32F32", "-2147483648.0000000001", -0x8000_0000_0000_0000);
    assert_ok("I32F32", "2147483647.9999999998", 0x7FFF_FFFF_FFFF_FFFF);
    assert_err("I32F32", "2147483647.9999999999", ParseErrorKind::Overflow);

    assert_err("I64F0", "-9223372036854775808.5", ParseErrorKind::Overflow);
    assert_ok("I64F0", 
        "-9223372036854775808.49999999999999999999",
        -0x8000_0000_0000_0000,
    );
    assert_ok("I64F0", 
        "9223372036854775807.49999999999999999999",
        0x7FFF_FFFF_FFFF_FFFF,
    );
    assert_err("I64F0", "9223372036854775807.5", ParseErrorKind::Overflow);

    assert_err("U0F64", "-0", ParseErrorKind::InvalidDigit);
    assert_ok("U0F64", "0.49999999999999999997", 0x7FFF_FFFF_FFFF_FFFF);
    assert_ok("U0F64", "0.49999999999999999998", 0x8000_0000_0000_0000);
    assert_ok("U0F64", "0.99999999999999999997", 0xFFFF_FFFF_FFFF_FFFF);
    assert_err("U0F64", "0.99999999999999999998", ParseErrorKind::Overflow);
    assert_err("U0F64", "1", ParseErrorKind::Overflow);

    assert_ok("U32F32", "2147483647.9999999998", 0x7FFF_FFFF_FFFF_FFFF);
    assert_ok("U32F32", "2147483647.9999999999", 0x8000_0000_0000_0000);
    assert_ok("U32F32", "4294967295.9999999998", 0xFFFF_FFFF_FFFF_FFFF);
    assert_err("U32F32", "4294967295.9999999999", ParseErrorKind::Overflow);

    assert_ok("U64F0", 
        "9223372036854775807.49999999999999999999",
        0x7FFF_FFFF_FFFF_FFFF,
    );
    assert_ok("U64F0", "9223372036854775807.5", 0x8000_0000_0000_0000);
    assert_ok("U64F0", 
        "18446744073709551615.49999999999999999999",
        0xFFFF_FFFF_FFFF_FFFF,
    );
    assert_err("U64F0", "18446744073709551615.5", ParseErrorKind::Overflow);
}

#[test]
fn check_i128_u128_from_str() {
    assert_err("I0F128", "-1", ParseErrorKind::Overflow);
    assert_err("I0F128", 
        "-0.500000000000000000000000000000000000002",
        ParseErrorKind::Overflow,
    );
    assert_ok("I0F128", 
        "-0.500000000000000000000000000000000000001",
        -0x8000_0000_0000_0000_0000_0000_0000_0000,
    );
    assert_ok("I0F128", 
        "0.499999999999999999999999999999999999998",
        0x7FFF_FFFF_FFFF_FFFF_FFFF_FFFF_FFFF_FFFF,
    );
    assert_err("I0F128", 
        "0.499999999999999999999999999999999999999",
        ParseErrorKind::Overflow,
    );
    assert_err("I0F128", "1", ParseErrorKind::Overflow);

    assert_err("I64F64", 
        "-9223372036854775808.00000000000000000003",
        ParseErrorKind::Overflow,
    );
    assert_ok("I64F64", 
        "-9223372036854775808.00000000000000000002",
        -0x8000_0000_0000_0000_0000_0000_0000_0000,
    );
    assert_ok("I64F64", 
        "9223372036854775807.99999999999999999997",
        0x7FFF_FFFF_FFFF_FFFF_FFFF_FFFF_FFFF_FFFF,
    );
    assert_err("I64F64", 
        "9223372036854775807.99999999999999999998",
        ParseErrorKind::Overflow,
    );

    assert_err("I128F0", 
        "-170141183460469231731687303715884105728.5",
        ParseErrorKind::Overflow,
    );
    assert_ok("I128F0", 
        "-170141183460469231731687303715884105728.4999999999999999999999999999999999999999",
        -0x8000_0000_0000_0000_0000_0000_0000_0000,
    );
    assert_ok("I128F0", 
        "170141183460469231731687303715884105727.4999999999999999999999999999999999999999",
        0x7FFF_FFFF_FFFF_FFFF_FFFF_FFFF_FFFF_FFFF,
    );
    assert_err("I128F0", 
        "170141183460469231731687303715884105727.5",
        ParseErrorKind::Overflow,
    );

    assert_err("U0F128", "-0", ParseErrorKind::InvalidDigit);
    assert_ok("U0F128", 
        "0.499999999999999999999999999999999999998",
        0x7FFF_FFFF_FFFF_FFFF_FFFF_FFFF_FFFF_FFFF,
    );
    assert_ok("U0F128", 
        "0.499999999999999999999999999999999999999",
        0x8000_0000_0000_0000_0000_0000_0000_0000u128 as i128,
    );
    assert_ok("U0F128", 
        "0.999999999999999999999999999999999999998",
        0xFFFF_FFFF_FFFF_FFFF_FFFF_FFFF_FFFF_FFFFu128 as i128,
    );
    assert_err("U0F128", 
        "0.999999999999999999999999999999999999999",
        ParseErrorKind::Overflow,
    );
    assert_err("U0F128", "1", ParseErrorKind::Overflow);

    assert_ok("U64F64", 
        "9223372036854775807.99999999999999999997",
        0x7FFF_FFFF_FFFF_FFFF_FFFF_FFFF_FFFF_FFFF,
    );
    assert_ok("U64F64", 
        "9223372036854775807.99999999999999999998",
        0x8000_0000_0000_0000_0000_0000_0000_0000u128 as i128,
    );
    assert_ok("U64F64", 
        "18446744073709551615.99999999999999999997",
        0xFFFF_FFFF_FFFF_FFFF_FFFF_FFFF_FFFF_FFFFu128 as i128,
    );
    assert_err("U64F64", 
        "18446744073709551615.99999999999999999998",
        ParseErrorKind::Overflow,
    );

    assert_ok("U128F0", 
        "170141183460469231731687303715884105727.4999999999999999999999999999999999999999",
        0x7FFF_FFFF_FFFF_FFFF_FFFF_FFFF_FFFF_FFFF,
    );
    assert_ok("U128F0", 
        "170141183460469231731687303715884105727.5",
        0x8000_0000_0000_0000_0000_0000_0000_0000u128 as i128,
    );
    assert_ok("U128F0", 
        "340282366920938463463374607431768211455.4999999999999999999999999999999999999999",
        0xFFFF_FFFF_FFFF_FFFF_FFFF_FFFF_FFFF_FFFFu128 as i128,
    );
    assert_err("U128F0", 
        "340282366920938463463374607431768211455.5",
        ParseErrorKind::Overflow,
    );
}
