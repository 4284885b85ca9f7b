//! Splitting a literal into its sign, integer digits and fraction digits.
use vstd::prelude::*;
use vstd::slice::slice_subrange;
use vstd::string::StringSliceAdditionalSpecFns;
use crate::digits::{all_digits, is_digit, is_digit_byte};

verus! {

/// What went wrong while parsing a fixed-point literal.
#[derive(Clone, Copy, Debug, PartialEq, Eq, Structural)]
pub enum ParseErrorKind {
    InvalidDigit,
    NoDigits,
    TooManyPoints,
    Overflow,
}

/// An error which can be returned when parsing a fixed-point number.
#[derive(Clone, Copy, Debug, PartialEq, Eq, Structural)]
pub struct ParseFixedError {
    pub kind: ParseErrorKind,
}

impl ParseFixedError {
    /// A human-readable description of the error.
    pub fn message(&self) -> (r: &'static str)
        ensures
            self.kind == ParseErrorKind::InvalidDigit ==> r@ == "invalid digit found in string"@,
            self.kind == ParseErrorKind::NoDigits ==> r@ == "string has no digits"@,
            self.kind == ParseErrorKind::TooManyPoints
                ==> r@ == "more than one decimal point found in string"@,
            self.kind == ParseErrorKind::Overflow ==> r@ == "overflow"@,
    {
        match self.kind {
            ParseErrorKind::InvalidDigit => "invalid digit found in string",
            ParseErrorKind::NoDigits => "string has no digits",
            ParseErrorKind::TooManyPoints => "more than one decimal point found in string",
            ParseErrorKind::Overflow => "overflow",
        }
    }
}

/// A literal split into its parts: the sign, and the integer and fraction
/// digits, which borrow from the text.
#[derive(Clone, Copy, Debug, PartialEq, Eq)]
pub struct Parse<'a> {
    pub neg: bool,
    pub int_digits: &'a [u8],
    pub frac_digits: &'a [u8],
}

pub open spec fn is_point(c: u8) -> bool {
    c == 0x2e
}

pub open spec fn is_plus(c: u8) -> bool {
    c == 0x2b
}

pub open spec fn is_minus(c: u8) -> bool {
    c == 0x2d
}

/// The error that byte `i` raises when everything before it was accepted.
pub open spec fn error_at(b: Seq<u8>, i: int, can_be_neg: bool, radix: u32) -> Option<ParseErrorKind> {
    let c = b[i];
    if is_point(c) {
        if b.take(i).contains(c) { Some(ParseErrorKind::TooManyPoints) } else { None }
    } else if is_plus(c) {
        if i > 0 { Some(ParseErrorKind::InvalidDigit) } else { None }
    } else if is_minus(c) {
        if i > 0 || !can_be_neg { Some(ParseErrorKind::InvalidDigit) } else { None }
    } else if is_digit(c, radix) {
        None
    } else {
        Some(ParseErrorKind::InvalidDigit)
    }
}

/// The error raised by the leftmost offending byte at or after `from`.
pub open spec fn first_error(b: Seq<u8>, from: int, can_be_neg: bool, radix: u32) -> Option<ParseErrorKind>
    decreases b.len() - from,
{
    if from < 0 || from >= b.len() {
        None
    } else {
        match error_at(b, from, can_be_neg, radix) {
            Some(k) => Some(k),
            None => first_error(b, from + 1, can_be_neg, radix),
        }
    }
}

/// Index of the first radix point at or after `from`, or the length of `b`.
pub open spec fn point_from(b: Seq<u8>, from: int) -> int
    decreases b.len() - from,
{
    if from < 0 || from >= b.len() {
        b.len() as int
    } else if is_point(b[from]) {
        from
    } else {
        point_from(b, from + 1)
    }
}

/// Length of the leading sign: 1 or 0.
pub open spec fn sign_len(b: Seq<u8>) -> int {
    if b.len() > 0 && (is_plus(b[0]) || is_minus(b[0])) { 1 } else { 0 }
}

pub open spec fn int_span(b: Seq<u8>) -> Seq<u8> {
    b.subrange(sign_len(b), point_from(b, 0))
}

pub open spec fn frac_span(b: Seq<u8>) -> Seq<u8> {
    if point_from(b, 0) < b.len() { b.skip(point_from(b, 0) + 1) } else { Seq::empty() }
}

/// The tokenizer as a function: the sign flag with the integer and fraction
/// digits, or the error of the leftmost offending byte, or `NoDigits`.
pub open spec fn tokenize(b: Seq<u8>, can_be_neg: bool, radix: u32)
    -> Result<(bool, Seq<u8>, Seq<u8>), ParseErrorKind>
{
    match first_error(b, 0, can_be_neg, radix) {
        Some(k) => Err(k),
        None => if int_span(b).len() == 0 && frac_span(b).len() == 0 {
            Err(ParseErrorKind::NoDigits)
        } else {
            Ok((sign_len(b) == 1 && is_minus(b[0]), int_span(b), frac_span(b)))
        },
    }
}

/// How an accepted literal is laid out: an optional sign (a minus exactly
/// when `neg`), the integer digits, then, if there is a fraction part, a
/// point and the fraction digits; nothing else. So the two spans are
/// disjoint, the integer span comes first, and with the sign and point they
/// make up the whole text.
pub open spec fn spans_rebuild(b: Seq<u8>, neg: bool, ints: Seq<u8>, fracs: Seq<u8>, radix: u32) -> bool {
    let sl = sign_len(b);
    let end = sl + ints.len();
    &&& (sl == 1 ==> (is_plus(b[0]) || is_minus(b[0])))
    &&& (neg <==> (sl == 1 && is_minus(b[0])))
    &&& end <= b.len()
    &&& b.subrange(sl, end) == ints
    &&& (end == b.len() && fracs.len() == 0 || end < b.len() && is_point(b[end]) && b.skip(end + 1) == fracs)
    &&& all_digits(ints, radix)
    &&& all_digits(fracs, radix)
    &&& ints.len() + fracs.len() > 0
}

proof fn lemma_first_error_none_suffix(b: Seq<u8>, from: int, i: int, can_be_neg: bool, radix: u32)
    requires
        0 <= from <= i < b.len(),
        first_error(b, from, can_be_neg, radix).is_none(),
    ensures
        error_at(b, i, can_be_neg, radix).is_none(),
    decreases i - from,
{
    if from < i {
        lemma_first_error_none_suffix(b, from + 1, i, can_be_neg, radix);
    }
}

proof fn lemma_point_from_none(b: Seq<u8>, from: int, i: int)
    requires
        0 <= from <= i,
        i < point_from(b, from),
        i < b.len(),
    ensures
        !is_point(b[i]),
    decreases i - from,
{
    if from < i {
        lemma_point_from_none(b, from + 1, i);
    }
}

proof fn lemma_point_from_bounds(b: Seq<u8>, from: int)
    requires
        0 <= from <= b.len(),
    ensures
        from <= point_from(b, from) <= b.len(),
        point_from(b, from) < b.len() ==> is_point(b[point_from(b, from)]),
    decreases b.len() - from,
{
    if from < b.len() && !is_point(b[from]) {
        lemma_point_from_bounds(b, from + 1);
    }
}

/// Every literal that the tokenizer accepts is laid out as `spans_rebuild`
/// says.
pub proof fn lemma_tokenize_spans(b: Seq<u8>, can_be_neg: bool, radix: u32)
    requires
        tokenize(b, can_be_neg, radix) is Ok,
    ensures
        ({
            let t = tokenize(b, can_be_neg, radix)->Ok_0;
            spans_rebuild(b, t.0, t.1, t.2, radix)
        }),
{
    let p = point_from(b, 0);
    let sl = sign_len(b);
    lemma_point_from_bounds(b, 0);
    if b.len() > 0 {
        lemma_first_error_none_suffix(b, 0, 0, can_be_neg, radix);
    }
    // A sign stands only first, so the bytes past the sign are digits or points.
    assert(sl <= p) by {
        if sl == 1 && p == 0 {
            assert(is_point(b[0]));
        }
    }
    let ints = int_span(b);
    let fracs = frac_span(b);
    assert forall|i: int| 0 <= i < ints.len() implies is_digit(#[trigger] ints[i], radix) by {
        let j = sl + i;
        lemma_first_error_none_suffix(b, 0, j, can_be_neg, radix);
        lemma_point_from_none(b, 0, j);
        assert(ints[i] == b[j]);
    }
    if p < b.len() {
        assert forall|i: int| 0 <= i < fracs.len() implies is_digit(#[trigger] fracs[i], radix) by {
            let j = p + 1 + i;
            lemma_first_error_none_suffix(b, 0, j, can_be_neg, radix);
            assert(fracs[i] == b[j]);
            assert(b.take(j)[p] == b[p]);
            assert(b.take(j).contains(b[p]));
        }
    }
    assert(sl + ints.len() == p);
}

/// Splits `s` into sign, integer digits and fraction digits for base `radix`.
/// A minus sign is accepted only when `can_be_neg` holds.
pub fn parse<'a>(s: &'a str, can_be_neg: bool, radix: u32) -> (r: Result<Parse<'a>, ParseFixedError>)
    ensures
        match r {
            Ok(p) => tokenize(s.spec_bytes(), can_be_neg, radix)
                == Ok::<(bool, Seq<u8>, Seq<u8>), ParseErrorKind>((p.neg, p.int_digits@, p.frac_digits@)),
            Err(e) => tokenize(s.spec_bytes(), can_be_neg, radix)
                == Err::<(bool, Seq<u8>, Seq<u8>), ParseErrorKind>(e.kind),
        },
        r matches Ok(p) ==> spans_rebuild(s.spec_bytes(), p.neg, p.int_digits@, p.frac_digits@, radix),
{
    let bytes = s.as_bytes();
    let ghost b = bytes@;
    let n = bytes.len();
    let mut has_point = false;
    let mut point: usize = n;
    let mut i: usize = 0;
    while i < n
        invariant
            b == bytes@,
            b == s.spec_bytes(),
            n == b.len(),
            i <= n,
            first_error(b, 0, can_be_neg, radix) == first_error(b, i as int, can_be_neg, radix),
            point_from(b, 0) == if has_point { point as int } else { point_from(b, i as int) },
            has_point ==> point < i,
            !has_point ==> point == n,
            has_point <==> b.take(i as int).contains(0x2eu8),
        decreases n - i,
    {
        let c = bytes[i];
        assert(b.take(i + 1) =~= b.take(i as int).push(c));
        if c == 0x2e {
            if has_point {
                return Err(ParseFixedError { kind: ParseErrorKind::TooManyPoints });
            }
            has_point = true;
            point = i;
            assert(b.take(i + 1)[i as int] == c);
        } else {
            if c == 0x2b || c == 0x2d {
                if i > 0 || (c == 0x2d && !can_be_neg) {
                    return Err(ParseFixedError { kind: ParseErrorKind::InvalidDigit });
                }
            } else if !is_digit_byte(c, radix) {
                return Err(ParseFixedError { kind: ParseErrorKind::InvalidDigit });
            }
            assert(!b.take(i + 1).contains(0x2eu8) ==> !b.take(i as int).contains(0x2eu8));
            assert(b.take(i as int).contains(0x2eu8) ==> b.take(i + 1).contains(0x2eu8)) by {
                if b.take(i as int).contains(0x2eu8) {
                    let j = choose|j: int| 0 <= j < i && b.take(i as int)[j] == 0x2eu8;
                    assert(b.take(i + 1)[j] == 0x2eu8);
                }
            }
        }
        i = i + 1;
    }
    let sign: usize = if n > 0 && (bytes[0] == 0x2b || bytes[0] == 0x2d) { 1 } else { 0 };
    let neg = sign == 1 && bytes[0] == 0x2d;
    proof {
        assert(point_from(b, n as int) == n);
        assert(first_error(b, n as int, can_be_neg, radix).is_none());
        assert(point_from(b, 0) == point as int);
        lemma_point_from_bounds(b, 0);
        if b.len() > 0 {
            lemma_first_error_none_suffix(b, 0, 0, can_be_neg, radix);
        }
        if sign == 1 && point == 0 {
            assert(b[0] == bytes[0]);
            assert(is_point(b[0]));
        }
        assert(sign <= point);
    }
    let int_digits = slice_subrange(bytes, sign, point);
    let frac_digits = if has_point { slice_subrange(bytes, point + 1, n) } else { slice_subrange(bytes, n, n) };
    assert(frac_digits@ =~= frac_span(b));
    if int_digits.len() == 0 && frac_digits.len() == 0 {
        return Err(ParseFixedError { kind: ParseErrorKind::NoDigits });
    }
    proof {
        lemma_tokenize_spans(b, can_be_neg, radix);
    }
    Ok(Parse { neg, int_digits, frac_digits })
}

} // verus!
