//! Digits of a numeric literal and the numbers they denote.
use vstd::prelude::*;
use vstd::arithmetic::power::*;

verus! {

/// Whether byte `c` is a digit in base `radix` (2, 8, 10 or 16; hexadecimal
/// letters in either case).
pub open spec fn is_digit(c: u8, radix: u32) -> bool {
    if radix == 2 {
        0x30 <= c <= 0x31
    } else if radix == 8 {
        0x30 <= c <= 0x37
    } else if radix == 10 {
        0x30 <= c <= 0x39
    } else if radix == 16 {
        (0x30 <= c <= 0x39) || (0x41 <= c <= 0x46) || (0x61 <= c <= 0x66)
    } else {
        false
    }
}

/// The value of a digit byte.
pub open spec fn digit_value(c: u8) -> nat {
    if 0x30 <= c <= 0x39 {
        (c - 0x30) as nat
    } else if 0x41 <= c <= 0x46 {
        (c - 0x41 + 10) as nat
    } else if 0x61 <= c <= 0x66 {
        (c - 0x61 + 10) as nat
    } else {
        0
    }
}

pub open spec fn all_digits(s: Seq<u8>, radix: u32) -> bool {
    forall|i: int| 0 <= i < s.len() ==> is_digit(#[trigger] s[i], radix)
}

/// The number that a digit string denotes in base `radix`, most significant
/// digit first; the empty string denotes zero.
pub open spec fn digits_value(s: Seq<u8>, radix: nat) -> nat
    decreases s.len(),
{
    if s.len() == 0 {
        0
    } else {
        digits_value(s.drop_last(), radix) * radix + digit_value(s.last())
    }
}

/// The value of the digit at index `j` of `s`, zero past its end.
pub open spec fn digit_at(s: Seq<u8>, j: int) -> nat {
    if 0 <= j < s.len() { digit_value(s[j]) } else { 0 }
}

/// The first `k` decimal digits of `s` read as one number, with zeros standing
/// in for the digits past the end of `s`.
pub open spec fn padded_value(s: Seq<u8>, k: nat) -> nat
    decreases k,
{
    if k == 0 {
        0
    } else {
        padded_value(s, (k - 1) as nat) * 10 + digit_at(s, k - 1)
    }
}

/// Whether `c` is a digit of base `radix`, and so a byte that may stand in a
/// digit span.
pub fn is_digit_byte(c: u8, radix: u32) -> (r: bool)
    ensures
        r == is_digit(c, radix),
{
    if radix == 2 {
        0x30 <= c && c <= 0x31
    } else if radix == 8 {
        0x30 <= c && c <= 0x37
    } else if radix == 10 {
        0x30 <= c && c <= 0x39
    } else if radix == 16 {
        (0x30 <= c && c <= 0x39) || (0x41 <= c && c <= 0x46) || (0x61 <= c && c <= 0x66)
    } else {
        false
    }
}

/// The value of a digit byte of any base up to 16.
pub fn digit_of(c: u8, radix: u32) -> (r: u8)
    requires
        is_digit(c, radix),
    ensures
        r as nat == digit_value(c),
        r < radix,
{
    if c <= 0x39 {
        c - 0x30
    } else if c <= 0x46 {
        c - 0x41 + 10
    } else {
        c - 0x61 + 10
    }
}

/// A string of `n` digits denotes less than `radix^n`.
pub proof fn lemma_digits_value_bound(s: Seq<u8>, radix: u32)
    requires
        all_digits(s, radix),
    ensures
        digits_value(s, radix as nat) < pow(radix as int, s.len()),
    decreases s.len(),
{
    reveal(pow);
    if s.len() > 0 {
        let init = s.drop_last();
        assert(all_digits(init, radix)) by {
            assert forall|i: int| 0 <= i < init.len() implies is_digit(#[trigger] init[i], radix) by {
                assert(init[i] == s[i]);
            }
        }
        lemma_digits_value_bound(init, radix);
        let v = digits_value(init, radix as nat);
        let d = digit_value(s.last());
        assert(is_digit(s[s.len() - 1], radix));
        let p = pow(radix as int, init.len());
        assert(v * radix + d < p * radix) by (nonlinear_arith)
            requires v < p, d < radix;
        assert(pow(radix as int, s.len()) == radix * p);
    }
}

/// Appending digits: the value of `a + b` is that of `a` shifted by the length
/// of `b`, plus that of `b`.
pub proof fn lemma_digits_value_append(a: Seq<u8>, b: Seq<u8>, radix: nat)
    ensures
        digits_value(a + b, radix) == digits_value(a, radix) * pow(radix as int, b.len())
            + digits_value(b, radix),
    decreases b.len(),
{
    reveal(pow);
    if b.len() == 0 {
        assert(a + b =~= a);
    } else {
        let ab = a + b;
        assert(ab.drop_last() =~= a + b.drop_last());
        assert(ab.last() == b.last());
        lemma_digits_value_append(a, b.drop_last(), radix);
        let va = digits_value(a, radix);
        let p = pow(radix as int, b.drop_last().len());
        let vb = digits_value(b.drop_last(), radix);
        assert((va * p + vb) * radix + digit_value(b.last())
            == va * (radix * p) + (vb * radix + digit_value(b.last()))) by (nonlinear_arith);
    }
}

/// Reading `k + j` padded digits is reading `k`, then `j` more from where
/// the first `k` ended.
pub proof fn lemma_padded_value_split(s: Seq<u8>, k: nat, j: nat)
    ensures
        padded_value(s, k + j) == padded_value(s, k) * pow(10, j)
            + padded_value(s.skip(if k <= s.len() { k as int } else { s.len() as int }), j),
    decreases j,
{
    reveal(pow);
    let t = s.skip(if k <= s.len() { k as int } else { s.len() as int });
    if j > 0 {
        lemma_padded_value_split(s, k, (j - 1) as nat);
        assert((k + j - 1) as nat == k + (j - 1) as nat);
        if k + j - 1 < s.len() {
            assert(t[j - 1] == s[k + j - 1]);
        }
        let a = padded_value(s, k);
        let p = pow(10, (j - 1) as nat);
        let b = padded_value(t, (j - 1) as nat);
        assert((a * p + b) * 10 == a * (10 * p) + b * 10) by (nonlinear_arith);
    }
}

/// Reads `k` decimal digits of `a` from `start`, padding with zeros past
/// the end.
pub fn dec_padded(a: &[u8], start: usize, k: u32) -> (r: u128)
    requires
        k <= 27,
        start <= a@.len(),
        all_digits(a@, 10),
    ensures
        r == padded_value(a@.skip(start as int), k as nat),
        r < pow(10, k as nat),
{
    let ghost s = a@.skip(start as int);
    let mut acc: u128 = 0;
    let mut j: u32 = 0;
    proof {
        reveal(pow);
    }
    while j < k
        invariant
            k <= 27,
            start <= a@.len(),
            all_digits(a@, 10),
            s == a@.skip(start as int),
            j <= k,
            acc == padded_value(s, j as nat),
            acc < pow(10, j as nat),
        decreases k - j,
    {
        let d: u128 = if (j as usize) < a.len() - start {
            let pos = start + j as usize;
            assert(s[j as int] == a@[pos as int]);
            digit_of(a[pos], 10) as u128
        } else {
            0
        };
        proof {
            reveal(pow);
            lemma_pow_increases(10, j as nat, 26);
            reveal_with_fuel(pow, 28);
            assert(acc * 10 + d < pow(10, j as nat) * 10) by (nonlinear_arith)
                requires acc < pow(10, j as nat), d < 10;
            assert(pow(10, (j + 1) as nat) == 10 * pow(10, j as nat));
        }
        acc = acc * 10 + d;
        j = j + 1;
    }
    acc
}

/// `k` padded decimal digits stand for less than `10^k`.
pub proof fn lemma_padded_value_bound(s: Seq<u8>, k: nat)
    requires
        all_digits(s, 10),
    ensures
        padded_value(s, k) < pow(10, k),
    decreases k,
{
    reveal(pow);
    if k > 0 {
        lemma_padded_value_bound(s, (k - 1) as nat);
        if k - 1 < s.len() {
            assert(is_digit(s[k - 1], 10));
        }
        let v = padded_value(s, (k - 1) as nat);
        let p = pow(10, (k - 1) as nat);
        let d = if k - 1 < s.len() { digit_value(s[k - 1]) } else { 0 };
        assert(v * 10 + d < 10 * p) by (nonlinear_arith) requires v < p, d < 10;
    }
}

} // verus!
