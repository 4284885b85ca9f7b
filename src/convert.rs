//! Converting the integer digits, and assembling the bits of a fixed-point
//! number from a literal.
use vstd::prelude::*;
use vstd::arithmetic::power::*;
use vstd::arithmetic::power2::*;
use vstd::string::StringSliceAdditionalSpecFns;
use crate::digits::{all_digits, digits_value, digit_of, lemma_digits_value_append};
use crate::fraction::{frac_scaled, get_frac128, is_radix, lemma_pow2_le,
    lemma_frac_ratio_below_one};
use crate::tokenizer::{parse, tokenize, ParseErrorKind, ParseFixedError};
use crate::wide::{lemma_pow2_128, pow2_u128};

verus! {

/// The magnitude that integer digits `ints` and fraction digits `fracs` stand
/// for, in units of `2^-frac_nbits`, with the fraction rounded to nearest
/// (halves up).
pub open spec fn magnitude(ints: Seq<u8>, fracs: Seq<u8>, radix: u32, frac_nbits: nat) -> nat {
    digits_value(ints, radix as nat) * pow2(frac_nbits) + frac_scaled(fracs, radix, frac_nbits)
}

/// The raw bits of an unsigned fixed-point number of `width` bits, `frac_nbits`
/// of them fractional, that the bytes `b` denote; or the error.
pub open spec fn unsigned_outcome(b: Seq<u8>, radix: u32, width: nat, frac_nbits: nat)
    -> Result<nat, ParseErrorKind>
{
    match tokenize(b, false, radix) {
        Err(k) => Err(k),
        Ok(t) => {
            let m = magnitude(t.1, t.2, radix, frac_nbits);
            if m < pow2(width) { Ok(m) } else { Err(ParseErrorKind::Overflow) }
        },
    }
}

/// The value of the raw bits of a signed fixed-point number of `width` bits,
/// `frac_nbits` of them fractional, that the bytes `b` denote; or the error.
/// A negative literal may reach `2^(width - 1)` in magnitude, a positive one
/// one unit less.
pub open spec fn signed_outcome(b: Seq<u8>, radix: u32, width: nat, frac_nbits: nat)
    -> Result<int, ParseErrorKind>
{
    match tokenize(b, true, radix) {
        Err(k) => Err(k),
        Ok(t) => {
            let m = magnitude(t.1, t.2, radix, frac_nbits);
            if t.0 {
                if m <= pow2((width - 1) as nat) { Ok(-m) } else { Err(ParseErrorKind::Overflow) }
            } else {
                if m < pow2((width - 1) as nat) { Ok(m as int) } else { Err(ParseErrorKind::Overflow) }
            }
        },
    }
}

/// The supported widths of a fixed-point number, in bits.
pub open spec fn is_width(width: int) -> bool {
    width == 8 || width == 16 || width == 32 || width == 64 || width == 128
}

/// The value of integer digits, or `None` where it does not fit in 128 bits.
fn int_value(a: &[u8], radix: u32) -> (r: Option<u128>)
    requires
        is_radix(radix),
        all_digits(a@, radix),
    ensures
        match r {
            Some(x) => x == digits_value(a@, radix as nat),
            None => digits_value(a@, radix as nat) > u128::MAX,
        },
{
    let ghost rd = radix as nat;
    let mut acc: u128 = 0;
    let mut i: usize = 0;
    assert(a@.take(0) =~= Seq::<u8>::empty());
    while i < a.len()
        invariant
            is_radix(radix),
            rd == radix,
            all_digits(a@, radix),
            i <= a@.len(),
            acc == digits_value(a@.take(i as int), rd),
        decreases a@.len() - i,
    {
        let g = digit_of(a[i], radix) as u128;
        proof {
            assert(a@.take(i + 1).drop_last() =~= a@.take(i as int));
            assert(a@.take(i + 1).last() == a@[i as int]);
        }
        if acc > (u128::MAX - g) / (radix as u128) {
            proof {
                assert(acc * rd + g > u128::MAX) by (nonlinear_arith)
                    requires acc > (u128::MAX - g) as int / rd as int, rd == radix, rd > 0, g <= u128::MAX;
                let head = a@.take(i + 1);
                let tail = a@.skip(i + 1);
                assert(head + tail =~= a@);
                lemma_digits_value_append(head, tail, rd);
                lemma_pow_positive(rd as int, tail.len());
                assert(digits_value(head, rd) * pow(rd as int, tail.len()) >= digits_value(head, rd))
                    by (nonlinear_arith) requires pow(rd as int, tail.len()) >= 1;
            }
            return None;
        }
        proof {
            assert(acc * rd + g <= u128::MAX) by (nonlinear_arith)
                requires acc <= (u128::MAX - g) as int / rd as int, rd == radix, rd > 0, g <= u128::MAX;
        }
        acc = acc * (radix as u128) + g;
        i = i + 1;
    }
    assert(a@.take(i as int) =~= a@);
    Some(acc)
}

/// The integer field of a `width`-bit number: the integer digits, plus one
/// where the fraction rounded up to a whole unit, placed in the top `nbits`
/// bits. `Overflow` where that does not fit in `nbits` bits. Where the field
/// fits in the upper half, the half-width converter does the work and its
/// result is moved up by half the width.
fn get_int(digits: &[u8], radix: u32, width: u32, nbits: u32, whole_frac: bool)
    -> (r: Result<u128, ParseFixedError>)
    requires
        is_radix(radix),
        all_digits(digits@, radix),
        is_width(width as int),
        nbits <= width,
    ensures
        ({
            let v = digits_value(digits@, radix as nat) + if whole_frac { 1nat } else { 0nat };
            match r {
                Ok(x) => v < pow2(nbits as nat) && x == v * pow2((width - nbits) as nat),
                Err(e) => e.kind == ParseErrorKind::Overflow && v >= pow2(nbits as nat),
            }
        }),
    decreases width,
{
    let ghost v = digits_value(digits@, radix as nat) + if whole_frac { 1nat } else { 0nat };
    let half = width / 2;
    if width > 8 && nbits <= half {
        let upper = match get_int(digits, radix, half, nbits, whole_frac) {
            Ok(x) => x,
            Err(e) => {
                return Err(e);
            },
        };
        proof {
            lemma_pow2_adds((half - nbits) as nat, half as nat);
            lemma_pow2_le(width as nat, 128);
            lemma_pow2_le(nbits as nat, half as nat);
            lemma_pow2_128();
            lemma_pow2_pos(half as nat);
            lemma_pow2_pos((half - nbits) as nat);
            lemma_pow2_adds(nbits as nat, (half - nbits) as nat);
            assert(v * pow2((half - nbits) as nat) < pow2(half as nat)) by (nonlinear_arith)
                requires
                    v < pow2(nbits as nat),
                    pow2(nbits as nat) * pow2((half - nbits) as nat) == pow2(half as nat),
                    pow2((half - nbits) as nat) > 0;
            lemma_pow2_adds(nbits as nat, (half - nbits) as nat);
            assert(upper * pow2(half as nat) < pow2(half as nat) * pow2(half as nat))
                by (nonlinear_arith)
                requires upper < pow2(half as nat), pow2(half as nat) > 0;
            lemma_pow2_adds(half as nat, half as nat);
            assert(upper * pow2(half as nat) == v * pow2((width - nbits) as nat)) by (nonlinear_arith)
                requires
                    upper == v * pow2((half - nbits) as nat),
                    pow2((half - nbits) as nat) * pow2(half as nat) == pow2((width - nbits) as nat);
        }
        return Ok(upper * pow2_u128(half));
    }
    proof {
        lemma_pow2_le(nbits as nat, 128);
        lemma_pow2_128();
    }
    let acc = match int_value(digits, radix) {
        Some(x) => x,
        None => {
            return Err(ParseFixedError { kind: ParseErrorKind::Overflow });
        },
    };
    let acc = if whole_frac {
        if acc == u128::MAX {
            return Err(ParseFixedError { kind: ParseErrorKind::Overflow });
        }
        acc + 1
    } else {
        acc
    };
    if nbits < 128 && acc >= pow2_u128(nbits) {
        return Err(ParseFixedError { kind: ParseErrorKind::Overflow });
    }
    let shift = width - nbits;
    proof {
        lemma2_to64();
        assert(acc < pow2(nbits as nat));
        assert(acc == v);
    }
    if shift == 0 {
        assert(v * pow2(0) == v);
        return Ok(acc);
    }
    proof {
        lemma_pow2_pos(shift as nat);
        lemma_pow2_adds(nbits as nat, shift as nat);
        lemma_pow2_le(width as nat, 128);
        assert(acc * pow2(shift as nat) < pow2(nbits as nat) * pow2(shift as nat))
            by (nonlinear_arith)
            requires acc < pow2(nbits as nat), pow2(shift as nat) > 0;
    }
    if shift == 128 {
        // No integer bits: only zero fits.
        assert(nbits == 0 && pow2(0) == 1);
        assert(v == 0);
        assert(v * pow2(shift as nat) == 0) by (nonlinear_arith) requires v == 0;
        return Ok(0);
    }
    Ok(acc * pow2_u128(shift))
}

/// Parses `s` in base `radix` into the raw bits of an unsigned fixed-point
/// number with `int_nbits` integer and `frac_nbits` fraction bits.
fn from_str_unsigned(s: &str, radix: u32, int_nbits: u32, frac_nbits: u32)
    -> (r: Result<u128, ParseFixedError>)
    requires
        is_radix(radix),
        is_width(int_nbits + frac_nbits),
    ensures
        match r {
            Ok(x) => unsigned_outcome(s.spec_bytes(), radix, (int_nbits + frac_nbits) as nat,
                frac_nbits as nat) == Ok::<nat, ParseErrorKind>(x as nat),
            Err(e) => unsigned_outcome(s.spec_bytes(), radix, (int_nbits + frac_nbits) as nat,
                frac_nbits as nat) == Err::<nat, ParseErrorKind>(e.kind),
        },
{
    let p = match parse(s, false, radix) {
        Ok(p) => p,
        Err(e) => {
            return Err(e);
        },
    };
    let ghost f = frac_nbits as nat;
    let ghost w = (int_nbits + frac_nbits) as nat;
    proof {
        crate::tokenizer::lemma_tokenize_spans(s.spec_bytes(), false, radix);
        lemma_frac_ratio_below_one(p.frac_digits@, radix, f);
        lemma_pow2_adds(int_nbits as nat, f);
    }
    let (frac, whole) = match get_frac128(p.frac_digits, radix, frac_nbits) {
        Some(x) => (x, false),
        None => (0, true),
    };
    let ghost iv = digits_value(p.int_digits@, radix as nat);
    let ghost m = magnitude(p.int_digits@, p.frac_digits@, radix, f);
    let int_field = match get_int(p.int_digits, radix, int_nbits + frac_nbits, int_nbits, whole) {
        Ok(x) => x,
        Err(e) => {
            proof {
                let v = iv + if whole { 1nat } else { 0nat };
                assert(m >= v * pow2(f)) by (nonlinear_arith)
                    requires m == iv * pow2(f) + frac_scaled(p.frac_digits@, radix, f),
                        whole ==> frac_scaled(p.frac_digits@, radix, f) == pow2(f),
                        v == iv + if whole { 1nat } else { 0nat };
                assert(v * pow2(f) >= pow2(w)) by (nonlinear_arith)
                    requires v >= pow2(int_nbits as nat), pow2(w) == pow2(int_nbits as nat) * pow2(f);
            }
            return Err(e);
        },
    };
    proof {
        let v = iv + if whole { 1nat } else { 0nat };
        lemma_pow2_pos(f);
        assert(m == v * pow2(f) + frac) by (nonlinear_arith)
            requires m == iv * pow2(f) + frac_scaled(p.frac_digits@, radix, f),
                whole ==> frac_scaled(p.frac_digits@, radix, f) == pow2(f) && frac == 0,
                !whole ==> frac_scaled(p.frac_digits@, radix, f) == frac,
                v == iv + if whole { 1nat } else { 0nat };
        assert(v * pow2(f) + frac < pow2(w)) by (nonlinear_arith)
            requires v < pow2(int_nbits as nat), frac < pow2(f),
                pow2(w) == pow2(int_nbits as nat) * pow2(f);
        lemma_pow2_le(w, 128);
        lemma_pow2_128();
    }
    Ok(int_field + frac)
}

/// Parses `s` in base `radix` into the raw bits of a signed fixed-point
/// number with `int_nbits` integer and `frac_nbits` fraction bits.
fn from_str_signed(s: &str, radix: u32, int_nbits: u32, frac_nbits: u32)
    -> (r: Result<i128, ParseFixedError>)
    requires
        is_radix(radix),
        is_width(int_nbits + frac_nbits),
    ensures
        match r {
            Ok(x) => signed_outcome(s.spec_bytes(), radix, (int_nbits + frac_nbits) as nat,
                frac_nbits as nat) == Ok::<int, ParseErrorKind>(x as int),
            Err(e) => signed_outcome(s.spec_bytes(), radix, (int_nbits + frac_nbits) as nat,
                frac_nbits as nat) == Err::<int, ParseErrorKind>(e.kind),
        },
{
    let p = match parse(s, true, radix) {
        Ok(p) => p,
        Err(e) => {
            return Err(e);
        },
    };
    let ghost f = frac_nbits as nat;
    let ghost w = (int_nbits + frac_nbits) as nat;
    let width = int_nbits + frac_nbits;
    let half = pow2_u128(width - 1);
    proof {
        crate::tokenizer::lemma_tokenize_spans(s.spec_bytes(), true, radix);
        lemma_frac_ratio_below_one(p.frac_digits@, radix, f);
        lemma_pow2_adds(int_nbits as nat, f);
        lemma_pow2_adds((w - 1) as nat, 1);
        lemma2_to64();
        lemma_pow2_le(w, 128);
        lemma_pow2_128();
    }
    let (frac, whole) = match get_frac128(p.frac_digits, radix, frac_nbits) {
        Some(x) => (x, false),
        None => (0, true),
    };
    let ghost iv = digits_value(p.int_digits@, radix as nat);
    let ghost m = magnitude(p.int_digits@, p.frac_digits@, radix, f);
    let int_field = match get_int(p.int_digits, radix, int_nbits + frac_nbits, int_nbits, whole) {
        Ok(x) => x,
        Err(e) => {
            proof {
                let v = iv + if whole { 1nat } else { 0nat };
                assert(m >= v * pow2(f)) by (nonlinear_arith)
                    requires m == iv * pow2(f) + frac_scaled(p.frac_digits@, radix, f),
                        whole ==> frac_scaled(p.frac_digits@, radix, f) == pow2(f),
                        v == iv + if whole { 1nat } else { 0nat };
                assert(v * pow2(f) >= pow2(w)) by (nonlinear_arith)
                    requires v >= pow2(int_nbits as nat), pow2(w) == pow2(int_nbits as nat) * pow2(f);
                lemma_pow2_pos((w - 1) as nat);
                assert(pow2(w) == pow2((w - 1) as nat) * 2);
                assert(m > pow2((w - 1) as nat));
            }
            return Err(e);
        },
    };
    proof {
        let v = iv + if whole { 1nat } else { 0nat };
        lemma_pow2_pos(f);
        assert(m == v * pow2(f) + frac) by (nonlinear_arith)
            requires m == iv * pow2(f) + frac_scaled(p.frac_digits@, radix, f),
                whole ==> frac_scaled(p.frac_digits@, radix, f) == pow2(f) && frac == 0,
                !whole ==> frac_scaled(p.frac_digits@, radix, f) == frac,
                v == iv + if whole { 1nat } else { 0nat };
        assert(v * pow2(f) + frac < pow2(w)) by (nonlinear_arith)
            requires v < pow2(int_nbits as nat), frac < pow2(f),
                pow2(w) == pow2(int_nbits as nat) * pow2(f);
    }
    let abs = int_field + frac;
    let max_abs = if p.neg { half } else { half - 1 };
    if abs > max_abs {
        return Err(ParseFixedError { kind: ParseErrorKind::Overflow });
    }
    if !p.neg {
        Ok(abs as i128)
    } else if abs == 0x8000_0000_0000_0000_0000_0000_0000_0000 {
        Ok(i128::MIN)
    } else {
        Ok(-(abs as i128))
    }
}

/// Parses `s` in base `radix` into the raw bits of a signed 8-bit
/// fixed-point number with `int_nbits` integer and `frac_nbits` fraction
/// bits, rounding to nearest with halves up.
pub fn from_str_i8(s: &str, radix: u32, int_nbits: u32, frac_nbits: u32)
    -> (r: Result<i8, ParseFixedError>)
    requires
        is_radix(radix),
        int_nbits + frac_nbits == 8,
    ensures
        match r {
            Ok(x) => signed_outcome(s.spec_bytes(), radix, 8, frac_nbits as nat)
                == Ok::<int, ParseErrorKind>(x as int),
            Err(e) => signed_outcome(s.spec_bytes(), radix, 8, frac_nbits as nat)
                == Err::<int, ParseErrorKind>(e.kind),
        },
{
    proof {
        lemma2_to64();
        lemma2_to64_rest();
        lemma_pow2_128();
    }
    match from_str_signed(s, radix, int_nbits, frac_nbits) {
        Ok(x) => Ok(x as i8),
        Err(e) => Err(e),
    }
}

/// Parses `s` in base `radix` into the raw bits of an unsigned 8-bit
/// fixed-point number with `int_nbits` integer and `frac_nbits` fraction
/// bits, rounding to nearest with halves up. A minus sign is refused.
pub fn from_str_u8(s: &str, radix: u32, int_nbits: u32, frac_nbits: u32)
    -> (r: Result<u8, ParseFixedError>)
    requires
        is_radix(radix),
        int_nbits + frac_nbits == 8,
    ensures
        match r {
            Ok(x) => unsigned_outcome(s.spec_bytes(), radix, 8, frac_nbits as nat)
                == Ok::<nat, ParseErrorKind>(x as nat),
            Err(e) => unsigned_outcome(s.spec_bytes(), radix, 8, frac_nbits as nat)
                == Err::<nat, ParseErrorKind>(e.kind),
        },
{
    proof {
        lemma2_to64();
        lemma_pow2_128();
    }
    match from_str_unsigned(s, radix, int_nbits, frac_nbits) {
        Ok(x) => Ok(x as u8),
        Err(e) => Err(e),
    }
}

/// Parses `s` in base `radix` into the raw bits of a signed 16-bit
/// fixed-point number with `int_nbits` integer and `frac_nbits` fraction
/// bits, rounding to nearest with halves up.
pub fn from_str_i16(s: &str, radix: u32, int_nbits: u32, frac_nbits: u32)
    -> (r: Result<i16, ParseFixedError>)
    requires
        is_radix(radix),
        int_nbits + frac_nbits == 16,
    ensures
        match r {
            Ok(x) => signed_outcome(s.spec_bytes(), radix, 16, frac_nbits as nat)
                == Ok::<int, ParseErrorKind>(x as int),
            Err(e) => signed_outcome(s.spec_bytes(), radix, 16, frac_nbits as nat)
                == Err::<int, ParseErrorKind>(e.kind),
        },
{
    proof {
        lemma2_to64();
        lemma2_to64_rest();
        lemma_pow2_128();
    }
    match from_str_signed(s, radix, int_nbits, frac_nbits) {
        Ok(x) => Ok(x as i16),
        Err(e) => Err(e),
    }
}

/// Parses `s` in base `radix` into the raw bits of an unsigned 16-bit
/// fixed-point number with `int_nbits` integer and `frac_nbits` fraction
/// bits, rounding to nearest with halves up. A minus sign is refused.
pub fn from_str_u16(s: &str, radix: u32, int_nbits: u32, frac_nbits: u32)
    -> (r: Result<u16, ParseFixedError>)
    requires
        is_radix(radix),
        int_nbits + frac_nbits == 16,
    ensures
        match r {
            Ok(x) => unsigned_outcome(s.spec_bytes(), radix, 16, frac_nbits as nat)
                == Ok::<nat, ParseErrorKind>(x as nat),
            Err(e) => unsigned_outcome(s.spec_bytes(), radix, 16, frac_nbits as nat)
                == Err::<nat, ParseErrorKind>(e.kind),
        },
{
    proof {
        lemma2_to64();
        lemma_pow2_128();
    }
    match from_str_unsigned(s, radix, int_nbits, frac_nbits) {
        Ok(x) => Ok(x as u16),
        Err(e) => Err(e),
    }
}

/// Parses `s` in base `radix` into the raw bits of a signed 32-bit
/// fixed-point number with `int_nbits` integer and `frac_nbits` fraction
/// bits, rounding to nearest with halves up.
pub fn from_str_i32(s: &str, radix: u32, int_nbits: u32, frac_nbits: u32)
    -> (r: Result<i32, ParseFixedError>)
    requires
        is_radix(radix),
        int_nbits + frac_nbits == 32,
    ensures
        match r {
            Ok(x) => signed_outcome(s.spec_bytes(), radix, 32, frac_nbits as nat)
                == Ok::<int, ParseErrorKind>(x as int),
            Err(e) => signed_outcome(s.spec_bytes(), radix, 32, frac_nbits as nat)
                == Err::<int, ParseErrorKind>(e.kind),
        },
{
    proof {
        lemma2_to64();
        lemma2_to64_rest();
        lemma_pow2_128();
    }
    match from_str_signed(s, radix, int_nbits, frac_nbits) {
        Ok(x) => Ok(x as i32),
        Err(e) => Err(e),
    }
}

/// Parses `s` in base `radix` into the raw bits of an unsigned 32-bit
/// fixed-point number with `int_nbits` integer and `frac_nbits` fraction
/// bits, rounding to nearest with halves up. A minus sign is refused.
pub fn from_str_u32(s: &str, radix: u32, int_nbits: u32, frac_nbits: u32)
    -> (r: Result<u32, ParseFixedError>)
    requires
        is_radix(radix),
        int_nbits + frac_nbits == 32,
    ensures
        match r {
            Ok(x) => unsigned_outcome(s.spec_bytes(), radix, 32, frac_nbits as nat)
                == Ok::<nat, ParseErrorKind>(x as nat),
            Err(e) => unsigned_outcome(s.spec_bytes(), radix, 32, frac_nbits as nat)
                == Err::<nat, ParseErrorKind>(e.kind),
        },
{
    proof {
        lemma2_to64();
        lemma_pow2_128();
    }
    match from_str_unsigned(s, radix, int_nbits, frac_nbits) {
        Ok(x) => Ok(x as u32),
        Err(e) => Err(e),
    }
}

/// Parses `s` in base `radix` into the raw bits of a signed 64-bit
/// fixed-point number with `int_nbits` integer and `frac_nbits` fraction
/// bits, rounding to nearest with halves up.
pub fn from_str_i64(s: &str, radix: u32, int_nbits: u32, frac_nbits: u32)
    -> (r: Result<i64, ParseFixedError>)
    requires
        is_radix(radix),
        int_nbits + frac_nbits == 64,
    ensures
        match r {
            Ok(x) => signed_outcome(s.spec_bytes(), radix, 64, frac_nbits as nat)
                == Ok::<int, ParseErrorKind>(x as int),
            Err(e) => signed_outcome(s.spec_bytes(), radix, 64, frac_nbits as nat)
                == Err::<int, ParseErrorKind>(e.kind),
        },
{
    proof {
        lemma2_to64();
        lemma2_to64_rest();
        lemma_pow2_128();
    }
    match from_str_signed(s, radix, int_nbits, frac_nbits) {
        Ok(x) => Ok(x as i64),
        Err(e) => Err(e),
    }
}

/// Parses `s` in base `radix` into the raw bits of an unsigned 64-bit
/// fixed-point number with `int_nbits` integer and `frac_nbits` fraction
/// bits, rounding to nearest with halves up. A minus sign is refused.
pub fn from_str_u64(s: &str, radix: u32, int_nbits: u32, frac_nbits: u32)
    -> (r: Result<u64, ParseFixedError>)
    requires
        is_radix(radix),
        int_nbits + frac_nbits == 64,
    ensures
        match r {
            Ok(x) => unsigned_outcome(s.spec_bytes(), radix, 64, frac_nbits as nat)
                == Ok::<nat, ParseErrorKind>(x as nat),
            Err(e) => unsigned_outcome(s.spec_bytes(), radix, 64, frac_nbits as nat)
                == Err::<nat, ParseErrorKind>(e.kind),
        },
{
    proof {
        lemma2_to64();
        lemma_pow2_128();
    }
    match from_str_unsigned(s, radix, int_nbits, frac_nbits) {
        Ok(x) => Ok(x as u64),
        Err(e) => Err(e),
    }
}

/// Parses `s` in base `radix` into the raw bits of a signed 128-bit
/// fixed-point number with `int_nbits` integer and `frac_nbits` fraction
/// bits, rounding to nearest with halves up.
pub fn from_str_i128(s: &str, radix: u32, int_nbits: u32, frac_nbits: u32)
    -> (r: Result<i128, ParseFixedError>)
    requires
        is_radix(radix),
        int_nbits + frac_nbits == 128,
    ensures
        match r {
            Ok(x) => signed_outcome(s.spec_bytes(), radix, 128, frac_nbits as nat)
                == Ok::<int, ParseErrorKind>(x as int),
            Err(e) => signed_outcome(s.spec_bytes(), radix, 128, frac_nbits as nat)
                == Err::<int, ParseErrorKind>(e.kind),
        },
{
    proof {
        lemma2_to64();
        lemma2_to64_rest();
        lemma_pow2_128();
    }
    match from_str_signed(s, radix, int_nbits, frac_nbits) {
        Ok(x) => Ok(x as i128),
        Err(e) => Err(e),
    }
}

/// Parses `s` in base `radix` into the raw bits of an unsigned 128-bit
/// fixed-point number with `int_nbits` integer and `frac_nbits` fraction
/// bits, rounding to nearest with halves up. A minus sign is refused.
pub fn from_str_u128(s: &str, radix: u32, int_nbits: u32, frac_nbits: u32)
    -> (r: Result<u128, ParseFixedError>)
    requires
        is_radix(radix),
        int_nbits + frac_nbits == 128,
    ensures
        match r {
            Ok(x) => unsigned_outcome(s.spec_bytes(), radix, 128, frac_nbits as nat)
                == Ok::<nat, ParseErrorKind>(x as nat),
            Err(e) => unsigned_outcome(s.spec_bytes(), radix, 128, frac_nbits as nat)
                == Err::<nat, ParseErrorKind>(e.kind),
        },
{
    proof {
        lemma2_to64();
        lemma_pow2_128();
    }
    match from_str_unsigned(s, radix, int_nbits, frac_nbits) {
        Ok(x) => Ok(x as u128),
        Err(e) => Err(e),
    }
}

/// Base equivalence: two literals in bases 2, 8 or 16 with the same sign,
/// the same integer value and the same fraction value parse to the same
/// bits, signed or unsigned.
pub proof fn lemma_base_equivalence(
    b1: Seq<u8>, radix1: u32, b2: Seq<u8>, radix2: u32, can_be_neg: bool, width: nat, frac_nbits: nat,
)
    requires
        radix1 == 2 || radix1 == 8 || radix1 == 16,
        radix2 == 2 || radix2 == 8 || radix2 == 16,
        tokenize(b1, can_be_neg, radix1) is Ok,
        tokenize(b2, can_be_neg, radix2) is Ok,
        ({
            let t1 = tokenize(b1, can_be_neg, radix1)->Ok_0;
            let t2 = tokenize(b2, can_be_neg, radix2)->Ok_0;
            &&& t1.0 == t2.0
            &&& digits_value(t1.1, radix1 as nat) == digits_value(t2.1, radix2 as nat)
            &&& digits_value(t1.2, radix1 as nat) * pow(radix2 as int, t2.2.len())
                == digits_value(t2.2, radix2 as nat) * pow(radix1 as int, t1.2.len())
        }),
    ensures
        can_be_neg ==> signed_outcome(b1, radix1, width, frac_nbits)
            == signed_outcome(b2, radix2, width, frac_nbits),
        !can_be_neg ==> unsigned_outcome(b1, radix1, width, frac_nbits)
            == unsigned_outcome(b2, radix2, width, frac_nbits),
{
    let t1 = tokenize(b1, can_be_neg, radix1)->Ok_0;
    let t2 = tokenize(b2, can_be_neg, radix2)->Ok_0;
    lemma_pow_positive(radix1 as int, t1.2.len());
    lemma_pow_positive(radix2 as int, t2.2.len());
    crate::rounding::lemma_scaled_frac_equal(
        digits_value(t1.2, radix1 as nat), pow(radix1 as int, t1.2.len()) as nat,
        digits_value(t2.2, radix2 as nat), pow(radix2 as int, t2.2.len()) as nat, frac_nbits);
    assert(magnitude(t1.1, t1.2, radix1, frac_nbits) == magnitude(t2.1, t2.2, radix2, frac_nbits));
}

} // verus!
