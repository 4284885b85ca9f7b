//! Converting the fraction digits of a literal to fraction bits.
use vstd::prelude::*;
use vstd::arithmetic::power::*;
use vstd::arithmetic::power2::*;
use vstd::arithmetic::mul::*;
use vstd::arithmetic::div_mod::*;
use vstd::bits::lemma_u128_shr_is_div;
use crate::rounding::{scaled_frac, lemma_div_ge, lemma_dec_round, lemma_partial_round, lemma_exact_round};
use crate::digits::{
    all_digits, dec_padded, digit_at, digit_of, digits_value, lemma_digits_value_append,
    lemma_digits_value_bound, lemma_padded_value_bound, lemma_padded_value_split, padded_value,
};
use crate::wide::{pow2_u128, lemma_pow2_128, two128, wide_value, mul_hi_lo, div_wide, wide_shl, wide_shr};

verus! {

/// The fraction `num / den` on a grid of `nbits` fraction bits: the rounded
/// count of units, or `None` where it rounds up to one whole unit.
pub open spec fn rounded_frac(num: nat, den: nat, nbits: nat) -> Option<nat> {
    let v = scaled_frac(num, den, nbits);
    if v < pow2(nbits) { Some(v) } else { None }
}

/// Rounds the `k`-digit decimal fraction `a / 10^k` to `width - dump_bits`
/// fraction bits, for a `width` of at most 64, using the odd divisor
/// `2 * 5^k` (`half_divisor` is `5^k`) on a double-width intermediate.
pub fn dec_to_bin(a: u128, k: u32, half_divisor: u128, width: u32, dump_bits: u32) -> (r: Option<u128>)
    requires
        1 <= k <= width <= 64,
        dump_bits <= width,
        half_divisor == pow(5, k as nat),
        2 * pow(5, k as nat) < pow2(width as nat),
        a < pow(10, k as nat),
    ensures
        r is None <==> rounded_frac(a as nat, pow(10, k as nat) as nat, (width - dump_bits) as nat) is None,
        r matches Some(x) ==> rounded_frac(a as nat, pow(10, k as nat) as nat, (width - dump_bits) as nat)
            == Some(x as nat),
{
    let ghost five = pow(5, k as nat);
    let ghost f = (width - dump_bits) as nat;
    let ghost s0 = (width + 1 - k) as nat;
    let scale = pow2_u128(width + 1 - k);
    proof {
        lemma_pow_distributes(5, 2, k as nat);
        lemma_pow2(k as nat);
        lemma_pow2_adds(s0, k as nat);
        lemma_pow2_adds(width as nat, width as nat);
        lemma_pow2_adds(width as nat, 1);
        lemma_pow2_128();
        lemma_pow_positive(5, k as nat);
        lemma_pow2_pos(width as nat);
        lemma2_to64();
        assert(s0 + k == width + 1);
        assert(pow2(s0) * pow2(k as nat) == pow2(width as nat) * 2);
        if width < 64 {
            lemma_pow2_strictly_increases(width as nat, 64);
            lemma_pow2_strictly_increases(2 * width as nat, 128);
        }
        // a * 2^s0 < 10^k * 2^s0 == 5^k * 2^(width + 1) <= (2^width - 1) * 2^width
        assert(a * scale + five < pow2(128)) by (nonlinear_arith)
            requires
                a < pow(10, k as nat),
                pow(10, k as nat) == five * pow2(k as nat),
                scale == pow2(s0),
                pow2(s0) * pow2(k as nat) == pow2(width as nat) * 2,
                2 * five + 1 <= pow2(width as nat),
                pow2(width as nat) * pow2(width as nat) <= pow2(128),
                five > 0;
    }
    let wide = a * scale;
    let shift = wide >> (dump_bits as u128);
    let divisor = half_divisor * 2;
    proof {
        lemma_u128_shr_is_div(wide, dump_bits as u128);
        lemma_pow2_pos(dump_bits as nat);
        assert(shift <= wide) by (nonlinear_arith)
            requires shift == wide as nat / pow2(dump_bits as nat), pow2(dump_bits as nat) > 0;
    }
    let round = shift + half_divisor;
    let whole = round >> ((width - dump_bits) as u128);
    proof {
        lemma_u128_shr_is_div(round, (width - dump_bits) as u128);
        lemma_dec_round(a as nat, k as nat, width as nat, dump_bits as nat);
        lemma_pow2_pos(f);
        lemma_div_ge(round as nat, pow2(f), divisor as nat);
        lemma_div_ge(round as nat, divisor as nat, pow2(f));
        lemma_mul_is_commutative(divisor as int, pow2(f) as int);
    }
    if whole >= divisor {
        None
    } else {
        Some(round / divisor)
    }
}

/// The powers of five and ten, and the widths, that the decimal
/// converters rely on.
pub proof fn lemma_dec_constants()
    ensures
        pow(5, 3) == 125 && pow(10, 3) == 1000,
        pow(5, 6) == 15625 && pow(10, 6) == 1000000,
        pow(5, 13) == 1220703125 && pow(10, 13) == 10000000000000,
        pow(5, 27) == 7450580596923828125 && pow(10, 27) == 1000000000000000000000000000,
        pow2(8) == 256 && pow2(16) == 65536 && pow2(32) == 4294967296,
        pow2(64) == 18446744073709551616,
{
    reveal_with_fuel(pow, 28);
    lemma2_to64();
}

pub proof fn lemma_pow2_le(a: nat, b: nat)
    requires
        a <= b,
    ensures
        pow2(a) <= pow2(b),
{
    if a < b {
        lemma_pow2_strictly_increases(a, b);
    }
}

/// Rounds the 3-digit decimal fraction `a / 10^3` to `8 - dump_bits`
/// fraction bits; `None` where it rounds up to one whole unit.
pub fn dec3_to_bin8(a: u16, dump_bits: u32) -> (r: Option<u8>)
    requires
        a < 1000,
        dump_bits <= 8,
    ensures
        r is None <==> rounded_frac(a as nat, 1000, (8 - dump_bits) as nat) is None,
        r matches Some(x) ==> rounded_frac(a as nat, 1000, (8 - dump_bits) as nat)
            == Some(x as nat),
{
    proof {
        lemma_dec_constants();
        lemma_pow2_le((8 - dump_bits) as nat, 8);
    }
    match dec_to_bin(a as u128, 3, 125, 8, dump_bits) {
        Some(x) => Some(x as u8),
        None => None,
    }
}

/// Rounds the 6-digit decimal fraction `a / 10^6` to `16 - dump_bits`
/// fraction bits; `None` where it rounds up to one whole unit.
pub fn dec6_to_bin16(a: u32, dump_bits: u32) -> (r: Option<u16>)
    requires
        a < 1000000,
        dump_bits <= 16,
    ensures
        r is None <==> rounded_frac(a as nat, 1000000, (16 - dump_bits) as nat) is None,
        r matches Some(x) ==> rounded_frac(a as nat, 1000000, (16 - dump_bits) as nat)
            == Some(x as nat),
{
    proof {
        lemma_dec_constants();
        lemma_pow2_le((16 - dump_bits) as nat, 16);
    }
    match dec_to_bin(a as u128, 6, 15625, 16, dump_bits) {
        Some(x) => Some(x as u16),
        None => None,
    }
}

/// Rounds the 13-digit decimal fraction `a / 10^13` to `32 - dump_bits`
/// fraction bits; `None` where it rounds up to one whole unit.
pub fn dec13_to_bin32(a: u64, dump_bits: u32) -> (r: Option<u32>)
    requires
        a < 10000000000000,
        dump_bits <= 32,
    ensures
        r is None <==> rounded_frac(a as nat, 10000000000000, (32 - dump_bits) as nat) is None,
        r matches Some(x) ==> rounded_frac(a as nat, 10000000000000, (32 - dump_bits) as nat)
            == Some(x as nat),
{
    proof {
        lemma_dec_constants();
        lemma_pow2_le((32 - dump_bits) as nat, 32);
    }
    match dec_to_bin(a as u128, 13, 1220703125, 32, dump_bits) {
        Some(x) => Some(x as u32),
        None => None,
    }
}

/// Rounds the 27-digit decimal fraction `a / 10^27` to `64 - dump_bits`
/// fraction bits; `None` where it rounds up to one whole unit.
pub fn dec27_to_bin64(a: u128, dump_bits: u32) -> (r: Option<u64>)
    requires
        a < 1000000000000000000000000000,
        dump_bits <= 64,
    ensures
        r is None <==> rounded_frac(a as nat, 1000000000000000000000000000, (64 - dump_bits) as nat) is None,
        r matches Some(x) ==> rounded_frac(a as nat, 1000000000000000000000000000, (64 - dump_bits) as nat)
            == Some(x as nat),
{
    proof {
        lemma_dec_constants();
        lemma_pow2_le((64 - dump_bits) as nat, 64);
    }
    match dec_to_bin(a as u128, 27, 7450580596923828125, 64, dump_bits) {
        Some(x) => Some(x as u64),
        None => None,
    }
}

/// `5^54`, half the divisor of the two-chunk decimal converter.
pub const HALF_DIVISOR_54: u128 = 55511151231257827021181583404541015625;

/// `10^27`, the weight of the first decimal chunk.
pub const TEN_POW_27: u128 = 1000000000000000000000000000;

pub proof fn lemma_dec54_constants()
    ensures
        pow(5, 54) == HALF_DIVISOR_54,
        pow(10, 54) == TEN_POW_27 * TEN_POW_27,
        pow(10, 27) == TEN_POW_27,
        2 * HALF_DIVISOR_54 < two128(),
{
    reveal_with_fuel(pow, 55);
}

/// Rounds the 54-digit decimal fraction `(hi * 10^27 + lo) / 10^54`, given as
/// two 27-digit chunks, to `128 - dump_bits` fraction bits; `None` where it
/// rounds up to one whole unit. The work is done on double-width values.
pub fn dec27_27_to_bin128(hi: u128, lo: u128, dump_bits: u32) -> (r: Option<u128>)
    requires
        hi < 1000000000000000000000000000,
        lo < 1000000000000000000000000000,
        dump_bits <= 128,
    ensures
        r is None <==> rounded_frac((hi * TEN_POW_27 + lo) as nat, (TEN_POW_27 * TEN_POW_27) as nat,
            (128 - dump_bits) as nat) is None,
        r matches Some(x) ==> rounded_frac((hi * TEN_POW_27 + lo) as nat, (TEN_POW_27 * TEN_POW_27) as nat,
            (128 - dump_bits) as nat) == Some(x as nat),
{
    let ghost t = two128();
    let ghost comb: nat = (hi * TEN_POW_27 + lo) as nat;
    let ghost f = (128 - dump_bits) as nat;
    let ghost d = dump_bits as nat;
    let divisor: u128 = HALF_DIVISOR_54 * 2;
    proof {
        lemma_dec54_constants();
        lemma_pow2_128();
        lemma_pow2_adds(75, 53);
        lemma_pow2_adds(75, 128);
        assert(comb < TEN_POW_27 * TEN_POW_27) by (nonlinear_arith)
            requires comb == hi * TEN_POW_27 + lo, hi < TEN_POW_27, lo < TEN_POW_27;
    }
    let (prod_hi, prod_lo) = mul_hi_lo(hi, TEN_POW_27);
    let room = u128::MAX - prod_lo;
    let (comb_hi, comb_lo) = if lo <= room {
        (prod_hi, prod_lo + lo)
    } else {
        assert(prod_hi + 1 < t) by (nonlinear_arith)
            requires
                prod_hi * t + prod_lo == hi * TEN_POW_27,
                hi < TEN_POW_27,
                prod_lo >= 0,
                TEN_POW_27 * TEN_POW_27 < (t - 1) * t,
                t == 0x1_0000_0000_0000_0000_0000_0000_0000_0000nat;
        (prod_hi + 1, lo - room - 1)
    };
    assert(wide_value(comb_hi, comb_lo) == comb);
    // comb * 2^75 < 10^54 * 2^75 == 5^54 * 2^129 < 2^256
    proof {
        lemma_pow_distributes(5, 2, 54);
        lemma_pow2(54);
        lemma_pow2_adds(54, 75);
        lemma_pow2_adds(128, 1);
        lemma2_to64();
        assert(comb * pow2(75) < HALF_DIVISOR_54 * pow2(129)) by (nonlinear_arith)
            requires
                comb < TEN_POW_27 * TEN_POW_27,
                TEN_POW_27 * TEN_POW_27 == HALF_DIVISOR_54 * pow2(54),
                pow2(54) * pow2(75) == pow2(129),
                pow2(75) > 0;
        assert(HALF_DIVISOR_54 * pow2(129) + HALF_DIVISOR_54 < t * t) by (nonlinear_arith)
            requires
                2 * HALF_DIVISOR_54 < t,
                pow2(129) == t * 2,
                HALF_DIVISOR_54 > 0,
                t > 1;
    }
    let (shift_hi, shift_lo) = if dump_bits < 75 {
        proof {
            lemma_pow2_adds((75 - d) as nat, d);
            lemma_pow2_pos(d);
            lemma_pow2_le((75 - d) as nat, 75);
            lemma_div_by_multiple((comb * pow2((75 - d) as nat)) as int, pow2(d) as int);
            assert(comb * pow2((75 - d) as nat) <= comb * pow2(75)) by (nonlinear_arith)
                requires pow2((75 - d) as nat) <= pow2(75);
            assert(comb * pow2((75 - d) as nat) * pow2(d) == comb * pow2(75)) by (nonlinear_arith)
                requires pow2((75 - d) as nat) * pow2(d) == pow2(75);
        }
        if dump_bits == 75 {
            (comb_hi, comb_lo)
        } else {
            wide_shl(comb_hi, comb_lo, 75 - dump_bits)
        }
    } else {
        proof {
            lemma_pow2_adds((d - 75) as nat, 75);
            lemma_pow2_pos(75);
            lemma_pow2_pos((d - 75) as nat);
            lemma_div_multiples_vanish_quotient(pow2(75) as int, comb as int, pow2((d - 75) as nat) as int);
            lemma_mul_is_commutative(pow2(75) as int, comb as int);
            lemma_mul_is_commutative(pow2(75) as int, pow2((d - 75) as nat) as int);
            lemma_div_is_ordered_by_denominator(comb as int, 1, pow2((d - 75) as nat) as int);
            assert(comb <= comb * pow2(75)) by (nonlinear_arith) requires pow2(75) > 0;
        }
        wide_shr(comb_hi, comb_lo, dump_bits - 75)
    };
    let ghost shifted = wide_value(shift_hi, shift_lo);
    assert(shifted == comb * pow2(75) / pow2(d));
    proof {
        lemma_pow2_pos(d);
        assert(shifted <= comb * pow2(75)) by (nonlinear_arith)
            requires shifted == comb * pow2(75) / pow2(d), pow2(d) > 0;
    }
    let room = u128::MAX - shift_lo;
    let (round_hi, round_lo) = if HALF_DIVISOR_54 <= room {
        (shift_hi, shift_lo + HALF_DIVISOR_54)
    } else {
        assert(shift_hi + 1 < t) by (nonlinear_arith)
            requires
                shift_hi * t + shift_lo + HALF_DIVISOR_54 < t * t,
                shift_lo + HALF_DIVISOR_54 >= t;
        (shift_hi + 1, HALF_DIVISOR_54 - room - 1)
    };
    let ghost round = wide_value(round_hi, round_lo);
    assert(round == shifted + HALF_DIVISOR_54);
    let (whole_hi, whole_lo) = wide_shr(round_hi, round_lo, 128 - dump_bits);
    proof {
        lemma_dec_round(comb, 54, 128, d);
        lemma_pow2_pos(f);
        lemma_div_ge(round, pow2(f), divisor as nat);
        lemma_div_ge(round, divisor as nat, pow2(f));
        lemma_mul_is_commutative(divisor as int, pow2(f) as int);
    }
    if whole_hi > 0 || whole_lo >= divisor {
        None
    } else {
        proof {
            lemma_pow2_le(f, 128);
            assert(round_hi < divisor) by (nonlinear_arith)
                requires
                    round == round_hi * t + round_lo,
                    round < divisor * pow2(f),
                    pow2(f) <= t;
        }
        Some(div_wide(round_hi, round_lo, divisor))
    }
}

/// Bits per digit of a power-of-two base.
pub open spec fn digit_bits(radix: u32) -> nat {
    if radix == 2 { 1 } else if radix == 8 { 3 } else { 4 }
}

pub open spec fn is_pow2_radix(radix: u32) -> bool {
    radix == 2 || radix == 8 || radix == 16
}

/// The fraction that the digits `a` denote after the point in base `radix`.
pub open spec fn frac_num(a: Seq<u8>, radix: u32) -> nat {
    digits_value(a, radix as nat)
}

pub open spec fn frac_den(a: Seq<u8>, radix: u32) -> nat {
    pow(radix as int, a.len()) as nat
}

proof fn lemma_radix_pow(radix: u32, n: nat)
    requires
        is_pow2_radix(radix),
    ensures
        pow(radix as int, n) == pow2(digit_bits(radix) * n),
        radix == pow2(digit_bits(radix)),
{
    lemma2_to64();
    lemma_pow2(digit_bits(radix));
    lemma_pow_multiplies(2, digit_bits(radix), n);
    lemma_pow2(digit_bits(radix) * n);
}

/// Rounds the fraction digits `a` of base 2, 8 or 16 to `nbits` fraction
/// bits, to nearest with halves up; `None` where the fraction rounds up to one
/// whole unit. Digits are shifted in while they fit; the digit that crosses
/// the last bit is split, and its highest dropped bit decides the rounding.
fn pow2_str_to_bin(a: &[u8], radix: u32, nbits: u32) -> (r: Option<u128>)
    requires
        is_pow2_radix(radix),
        all_digits(a@, radix),
        nbits <= 128,
    ensures
        r is None <==> rounded_frac(frac_num(a@, radix), frac_den(a@, radix), nbits as nat) is None,
        r matches Some(x) ==> rounded_frac(frac_num(a@, radix), frac_den(a@, radix), nbits as nat)
            == Some(x as nat),
{
    let bits: u32 = if radix == 2 { 1 } else if radix == 8 { 3 } else { 4 };
    let ghost d = digit_bits(radix);
    let ghost la = a@.len();
    let ghost rd = radix as nat;
    let mut acc: u128 = 0;
    let mut cap: u32 = nbits;
    let mut i: usize = 0;
    proof {
        lemma_radix_pow(radix, 0);
        lemma2_to64();
        assert(a@.take(0) =~= Seq::<u8>::empty());
        lemma_pow2_128();
    }
    while i < a.len() && cap >= bits
        invariant
            bits == d,
            rd == radix,
            radix == pow2(d),
            la == a@.len(),
            is_pow2_radix(radix),
            all_digits(a@, radix),
            nbits <= 128,
            i <= la,
            d * (i as nat) + cap == nbits,
            acc == digits_value(a@.take(i as int), rd),
            acc < pow2(d * (i as nat)),
        decreases la - i,
    {
        let g = digit_of(a[i], radix);
        proof {
            lemma_pow2_adds(d * (i as nat), d);
            assert(d * (i as nat) + d == d * ((i + 1) as nat)) by (nonlinear_arith);
            lemma_pow2_le(d * ((i + 1) as nat), 128);
            lemma_pow2_128();
            assert(acc * radix + g < pow2(d * (i as nat)) * radix) by (nonlinear_arith)
                requires acc < pow2(d * (i as nat)), g < radix;
            assert(a@.take(i + 1).drop_last() =~= a@.take(i as int));
            assert(a@.take(i + 1).last() == a@[i as int]);
            assert(digits_value(a@.take(i + 1), rd) == acc * rd + g);
        }
        acc = acc * (radix as u128) + g as u128;
        cap = cap - bits;
        i = i + 1;
    }
    proof {
        lemma_radix_pow(radix, la);
        lemma_pow2_pos(d * (i as nat));
    }
    if i == a.len() {
        proof {
            assert(a@.take(i as int) =~= a@);
            lemma_pow2_adds(d * la, cap as nat);
            lemma_exact_round(acc as nat, pow2(d * la), pow2(cap as nat));
            lemma_pow2_pos(cap as nat);
            assert(acc * pow2(cap as nat) < pow2(d * la) * pow2(cap as nat)) by (nonlinear_arith)
                requires acc < pow2(d * la), pow2(cap as nat) > 0;
            lemma_pow2_le(nbits as nat, 128);
            lemma_pow2_128();
            if cap == 128 {
                assert(acc == 0);
            }
        }
        let scaled: u128 = if cap == 128 { 0 } else { acc * pow2_u128(cap) };
        return Some(scaled);
    }
    // The digit at `i` crosses the last fraction bit.
    let g = digit_of(a[i], radix) as u128;
    let e = bits - cap;
    let pc = pow2_u128(cap);
    let pe = pow2_u128(e);
    let h = pow2_u128(e - 1);
    let ghost pi = pow2(d * (i as nat));
    let ghost pp = pow2(d * (la - i - 1) as nat);
    let ghost rest = digits_value(a@.skip(i + 1), rd);
    proof {
        lemma_pow2_adds(cap as nat, e as nat);
        lemma_pow2_adds((e - 1) as nat, 1);
        lemma2_to64();
        lemma_pow2_pos(cap as nat);
        lemma_pow2_pos((e - 1) as nat);
        lemma_pow2_pos(d * (la - i - 1) as nat);
        lemma_fundamental_div_mod(g as int, pe as int);
        lemma_mod_bound(g as int, pe as int);
        assert(g / pe < pc) by (nonlinear_arith)
            requires g < radix, radix == pc * pe, pe > 0, g == pe * (g / pe) + g % pe, g % pe >= 0;
    }
    let kept = g / pe;
    let low = g % pe;
    proof {
        lemma_pow2_adds(d * (i as nat), cap as nat);
        lemma_pow2_le(nbits as nat, 128);
        lemma_pow2_128();
        assert(acc * pc + kept < pi * pc) by (nonlinear_arith)
            requires acc < pi, kept < pc;
    }
    let acc2 = acc * pc + kept;
    let round_up = low >= h;
    proof {
        // The value of the digits, split after digit `i`.
        let head = a@.take(i + 1);
        let tail = a@.skip(i + 1);
        assert(head + tail =~= a@);
        assert(head.drop_last() =~= a@.take(i as int));
        lemma_digits_value_append(head, tail, rd);
        assert(all_digits(tail, radix)) by {
            assert forall|j: int| 0 <= j < tail.len() implies crate::digits::is_digit(#[trigger] tail[j], radix) by {
                assert(tail[j] == a@[i + 1 + j]);
            }
        }
        lemma_digits_value_bound(tail, radix);
        lemma_radix_pow(radix, tail.len());
        assert(digits_value(head, rd) == acc * radix + g);
        lemma_pow2_adds(d * (i as nat), d);
        lemma_pow2_adds(d * (i as nat) + d, d * (la - i - 1) as nat);
        assert(d * (i as nat) + d + d * (la - i - 1) as nat == d * la) by (nonlinear_arith)
            requires i < la;
        assert(frac_den(a@, radix) == pi * radix * pp);
        assert(frac_num(a@, radix) == (acc * radix + g) * pp + rest);
        assert(pow2(nbits as nat) == pi * pc);
        lemma_partial_round(acc as nat, g as nat, rest, kept as nat, low as nat,
            pi, radix as nat, pc as nat, pe as nat, h as nat, pp);
    }
    let top: u128 = if nbits == 128 { u128::MAX } else { pow2_u128(nbits) - 1 };
    if !round_up {
        Some(acc2)
    } else if acc2 == top {
        None
    } else {
        Some(acc2 + 1)
    }
}

/// Rounds binary fraction digits to `nbits` fraction bits.
pub fn bin_str_to_bin(a: &[u8], nbits: u32) -> (r: Option<u128>)
    requires
        all_digits(a@, 2),
        nbits <= 128,
    ensures
        r is None <==> rounded_frac(frac_num(a@, 2), frac_den(a@, 2), nbits as nat) is None,
        r matches Some(x) ==> rounded_frac(frac_num(a@, 2), frac_den(a@, 2), nbits as nat)
            == Some(x as nat),
{
    pow2_str_to_bin(a, 2, nbits)
}

/// Rounds octal fraction digits to `nbits` fraction bits.
pub fn oct_str_to_bin(a: &[u8], nbits: u32) -> (r: Option<u128>)
    requires
        all_digits(a@, 8),
        nbits <= 128,
    ensures
        r is None <==> rounded_frac(frac_num(a@, 8), frac_den(a@, 8), nbits as nat) is None,
        r matches Some(x) ==> rounded_frac(frac_num(a@, 8), frac_den(a@, 8), nbits as nat)
            == Some(x as nat),
{
    pow2_str_to_bin(a, 8, nbits)
}

/// Rounds hexadecimal fraction digits to `nbits` fraction bits.
pub fn hex_str_to_bin(a: &[u8], nbits: u32) -> (r: Option<u128>)
    requires
        all_digits(a@, 16),
        nbits <= 128,
    ensures
        r is None <==> rounded_frac(frac_num(a@, 16), frac_den(a@, 16), nbits as nat) is None,
        r matches Some(x) ==> rounded_frac(frac_num(a@, 16), frac_den(a@, 16), nbits as nat)
            == Some(x as nat),
{
    pow2_str_to_bin(a, 16, nbits)
}

/// Decimal digits that fully decide the rounding to `nbits` fraction bits.
pub open spec fn dec_digit_limit(nbits: nat) -> nat {
    if nbits <= 8 {
        3
    } else if nbits <= 16 {
        6
    } else if nbits <= 32 {
        13
    } else if nbits <= 64 {
        27
    } else {
        54
    }
}

pub open spec fn is_radix(radix: u32) -> bool {
    radix == 2 || radix == 8 || radix == 10 || radix == 16
}

/// The fraction that the digits after the point stand for, as numerator and
/// denominator: in base 10, only the first `dec_digit_limit(nbits)` digits
/// count.
pub open spec fn frac_ratio(a: Seq<u8>, radix: u32, nbits: nat) -> (nat, nat) {
    if radix == 10 {
        (padded_value(a, dec_digit_limit(nbits)), pow(10, dec_digit_limit(nbits)) as nat)
    } else {
        (frac_num(a, radix), frac_den(a, radix))
    }
}

/// The fraction field for the digits `a`: `None` where it rounds up to a
/// whole unit.
pub open spec fn frac_field(a: Seq<u8>, radix: u32, nbits: nat) -> Option<nat> {
    rounded_frac(frac_ratio(a, radix, nbits).0, frac_ratio(a, radix, nbits).1, nbits)
}

/// The fraction rounded to `nbits` fraction bits, as a count of units; it
/// is `2^nbits` where the fraction rounds up to a whole unit.
pub open spec fn frac_scaled(a: Seq<u8>, radix: u32, nbits: nat) -> nat {
    scaled_frac(frac_ratio(a, radix, nbits).0, frac_ratio(a, radix, nbits).1, nbits)
}

pub open spec fn frac_result(r: Option<u128>, a: Seq<u8>, radix: u32, nbits: nat) -> bool {
    match r {
        Some(x) => frac_field(a, radix, nbits) == Some(x as nat),
        None => frac_field(a, radix, nbits) is None && frac_scaled(a, radix, nbits) == pow2(nbits),
    }
}

/// A fraction below one rounds to at most one whole unit.
pub proof fn lemma_scaled_frac_le(num: nat, den: nat, nbits: nat)
    requires
        num < den,
    ensures
        scaled_frac(num, den, nbits) <= pow2(nbits),
{
    let p = pow2(nbits);
    lemma_pow2_pos(nbits);
    assert(2 * (num * p) + den < (p + 1) * (2 * den)) by (nonlinear_arith)
        requires num < den, p > 0;
    lemma_div_ge((2 * (num * p) + den) as nat, 2 * den, p + 1);
}

/// The digits after the point always stand for less than one.
pub proof fn lemma_frac_ratio_below_one(a: Seq<u8>, radix: u32, nbits: nat)
    requires
        is_radix(radix),
        all_digits(a, radix),
    ensures
        frac_ratio(a, radix, nbits).0 < frac_ratio(a, radix, nbits).1,
        frac_scaled(a, radix, nbits) <= pow2(nbits),
{
    if radix == 10 {
        lemma_padded_value_bound(a, dec_digit_limit(nbits));
    } else {
        lemma_digits_value_bound(a, radix);
    }
    lemma_scaled_frac_le(frac_ratio(a, radix, nbits).0, frac_ratio(a, radix, nbits).1, nbits);
}

/// The fraction field for at most 8 fraction bits.
fn get_frac8(frac: &[u8], radix: u32, nbits: u32) -> (r: Option<u128>)
    requires
        is_radix(radix),
        all_digits(frac@, radix),
        nbits <= 8,
    ensures
        frac_result(r, frac@, radix, nbits as nat),
{
    proof {
        lemma_frac_ratio_below_one(frac@, radix, nbits as nat);
    }
    if radix != 10 {
        return pow2_str_to_bin(frac, radix, nbits);
    }
    let a = dec_padded(frac, 0, 3);
    proof {
        lemma_dec_constants();
        assert(frac@.skip(0) =~= frac@);
    }
    match dec3_to_bin8(a as u16, 8 - nbits) {
        Some(x) => Some(x as u128),
        None => None,
    }
}

/// The fraction field for at most 16 fraction bits.
fn get_frac16(frac: &[u8], radix: u32, nbits: u32) -> (r: Option<u128>)
    requires
        is_radix(radix),
        all_digits(frac@, radix),
        nbits <= 16,
    ensures
        frac_result(r, frac@, radix, nbits as nat),
{
    proof {
        lemma_frac_ratio_below_one(frac@, radix, nbits as nat);
    }
    if nbits <= 8 {
        return get_frac8(frac, radix, nbits);
    }
    if radix != 10 {
        return pow2_str_to_bin(frac, radix, nbits);
    }
    let a = dec_padded(frac, 0, 6);
    proof {
        lemma_dec_constants();
        assert(frac@.skip(0) =~= frac@);
    }
    match dec6_to_bin16(a as u32, 16 - nbits) {
        Some(x) => Some(x as u128),
        None => None,
    }
}

/// The fraction field for at most 32 fraction bits.
fn get_frac32(frac: &[u8], radix: u32, nbits: u32) -> (r: Option<u128>)
    requires
        is_radix(radix),
        all_digits(frac@, radix),
        nbits <= 32,
    ensures
        frac_result(r, frac@, radix, nbits as nat),
{
    proof {
        lemma_frac_ratio_below_one(frac@, radix, nbits as nat);
    }
    if nbits <= 16 {
        return get_frac16(frac, radix, nbits);
    }
    if radix != 10 {
        return pow2_str_to_bin(frac, radix, nbits);
    }
    let a = dec_padded(frac, 0, 13);
    proof {
        lemma_dec_constants();
        assert(frac@.skip(0) =~= frac@);
    }
    match dec13_to_bin32(a as u64, 32 - nbits) {
        Some(x) => Some(x as u128),
        None => None,
    }
}

/// The fraction field for at most 64 fraction bits.
fn get_frac64(frac: &[u8], radix: u32, nbits: u32) -> (r: Option<u128>)
    requires
        is_radix(radix),
        all_digits(frac@, radix),
        nbits <= 64,
    ensures
        frac_result(r, frac@, radix, nbits as nat),
{
    proof {
        lemma_frac_ratio_below_one(frac@, radix, nbits as nat);
    }
    if nbits <= 32 {
        return get_frac32(frac, radix, nbits);
    }
    if radix != 10 {
        return pow2_str_to_bin(frac, radix, nbits);
    }
    let a = dec_padded(frac, 0, 27);
    proof {
        lemma_dec_constants();
        assert(frac@.skip(0) =~= frac@);
    }
    match dec27_to_bin64(a as u128, 64 - nbits) {
        Some(x) => Some(x as u128),
        None => None,
    }
}

/// The fraction field of the digits `frac` in base `radix` for `nbits`
/// fraction bits: the fraction rounded to nearest with halves up, or `None`
/// where it rounds up to one whole unit. Up to 64 bits the narrower
/// converters do the work.
pub fn get_frac128(frac: &[u8], radix: u32, nbits: u32) -> (r: Option<u128>)
    requires
        is_radix(radix),
        all_digits(frac@, radix),
        nbits <= 128,
    ensures
        frac_result(r, frac@, radix, nbits as nat),
{
    proof {
        lemma_frac_ratio_below_one(frac@, radix, nbits as nat);
    }
    if nbits <= 64 {
        return get_frac64(frac, radix, nbits);
    }
    if radix != 10 {
        return pow2_str_to_bin(frac, radix, nbits);
    }
    let hi = dec_padded(frac, 0, 27);
    let lo_start: usize = if frac.len() < 27 { frac.len() } else { 27 };
    let lo = dec_padded(frac, lo_start, 27);
    proof {
        lemma_dec54_constants();
        reveal_with_fuel(pow, 28);
        assert(frac@.skip(0) =~= frac@);
        lemma_padded_value_split(frac@, 27, 27);
    }
    dec27_27_to_bin128(hi, lo, 128 - nbits)
}

pub open spec fn all_zeros(t: Seq<u8>) -> bool {
    forall|j: int| 0 <= j < t.len() ==> #[trigger] t[j] == 0x30u8
}

proof fn lemma_padded_value_same_prefix(s1: Seq<u8>, s2: Seq<u8>, k: nat)
    requires
        forall|j: int| 0 <= j < k ==> #[trigger] digit_at(s1, j) == digit_at(s2, j),
    ensures
        padded_value(s1, k) == padded_value(s2, k),
    decreases k,
{
    if k > 0 {
        lemma_padded_value_same_prefix(s1, s2, (k - 1) as nat);
        assert(digit_at(s1, k - 1) == digit_at(s2, k - 1));
    }
}

proof fn lemma_digits_value_zeros(t: Seq<u8>, radix: nat)
    requires
        all_zeros(t),
    ensures
        digits_value(t, radix) == 0,
    decreases t.len(),
{
    if t.len() > 0 {
        assert(all_zeros(t.drop_last())) by {
            assert forall|j: int| 0 <= j < t.drop_last().len() implies #[trigger] t.drop_last()[j] == 0x30u8 by {
                assert(t.drop_last()[j] == t[j]);
            }
        }
        lemma_digits_value_zeros(t.drop_last(), radix);
        assert(t.last() == t[t.len() - 1]);
        let v = digits_value(t.drop_last(), radix);
        assert(v * radix == 0) by (nonlinear_arith) requires v == 0;
    }
}

/// Trailing zeros after the fraction digits never change the fraction
/// field, in any base.
pub proof fn lemma_frac_trailing_zeros(a: Seq<u8>, t: Seq<u8>, radix: u32, nbits: nat)
    requires
        is_radix(radix),
        all_zeros(t),
    ensures
        frac_scaled(a + t, radix, nbits) == frac_scaled(a, radix, nbits),
        frac_field(a + t, radix, nbits) == frac_field(a, radix, nbits),
{
    let at = a + t;
    if radix == 10 {
        let k = dec_digit_limit(nbits);
        assert forall|j: int| 0 <= j < k implies
            #[trigger] digit_at(at, j) == digit_at(a, j) by {
            if a.len() <= j < at.len() {
                assert(at[j] == t[j - a.len()]);
            }
        }
        lemma_padded_value_same_prefix(at, a, k);
    } else {
        let rd = radix as nat;
        lemma_digits_value_append(a, t, rd);
        lemma_digits_value_zeros(t, rd);
        lemma_pow_adds(radix as int, a.len(), t.len());
        lemma_pow_positive(radix as int, a.len());
        lemma_pow_positive(radix as int, t.len());
        let n1 = digits_value(at, rd);
        let d1 = pow(radix as int, at.len());
        let n2 = digits_value(a, rd);
        let d2 = pow(radix as int, a.len());
        let pt = pow(radix as int, t.len());
        assert(n1 * d2 == n2 * d1) by (nonlinear_arith)
            requires n1 == n2 * pt, d1 == d2 * pt;
        lemma_mul_strictly_positive(d2, pt);
        crate::rounding::lemma_scaled_frac_equal(n1, d1 as nat, n2, d2 as nat, nbits);
    }
}

/// In base 10 only the first `dec_digit_limit(nbits)` fraction digits are
/// read: digits past them never change the fraction field.
pub proof fn lemma_dec_digits_past_limit(a: Seq<u8>, t: Seq<u8>, nbits: nat)
    requires
        a.len() >= dec_digit_limit(nbits),
    ensures
        frac_scaled(a + t, 10, nbits) == frac_scaled(a, 10, nbits),
        frac_field(a + t, 10, nbits) == frac_field(a, 10, nbits),
{
    let at = a + t;
    let k = dec_digit_limit(nbits);
    assert forall|j: int| 0 <= j < k implies
        #[trigger] digit_at(at, j) == digit_at(a, j) by {
        assert(at[j] == a[j]);
    }
    lemma_padded_value_same_prefix(at, a, k);
}

} // verus!
