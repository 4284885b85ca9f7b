//! Double-width unsigned arithmetic on 128-bit halves.
use vstd::prelude::*;
use vstd::arithmetic::power2::*;
use vstd::arithmetic::div_mod::*;
use vstd::bits::*;

verus! {

/// 2^128, the weight of the high half of a double-width value.
pub open spec fn two128() -> nat {
    0x1_0000_0000_0000_0000_0000_0000_0000_0000nat
}

/// The number held by a (high, low) pair.
pub open spec fn wide_value(hi: u128, lo: u128) -> nat {
    hi as nat * two128() + lo as nat
}

pub proof fn lemma_pow2_128()
    ensures
        pow2(128) == two128(),
        pow2(127) == 0x8000_0000_0000_0000_0000_0000_0000_0000nat,
        pow2(64) == 0x1_0000_0000_0000_0000nat,
{
    lemma2_to64();
    lemma2_to64_rest();
    lemma_pow2_adds(64, 64);
    lemma_pow2_adds(64, 63);
    assert(pow2(63) == 0x8000_0000_0000_0000nat);
}

proof fn lemma_split64(x: u128)
    ensures
        x >> 64u32 == x / 0x1_0000_0000_0000_0000,
        x & 0xFFFF_FFFF_FFFF_FFFF == x % 0x1_0000_0000_0000_0000,
{
    assert(x >> 64u32 == x / 0x1_0000_0000_0000_0000) by (bit_vector);
    assert(x & 0xFFFF_FFFF_FFFF_FFFF == x % 0x1_0000_0000_0000_0000) by (bit_vector);
}

proof fn lemma_pow2_0()
    ensures
        pow2(0) == 1,
{
    lemma2_to64();
}

/// Exact double-width product of two 128-bit values, as a (high, low) pair.
pub fn mul_hi_lo(lhs: u128, rhs: u128) -> (r: (u128, u128))
    ensures
        wide_value(r.0, r.1) == lhs as nat * rhs as nat,
{
    let lo_mask: u128 = 0xFFFF_FFFF_FFFF_FFFF;
    let lhs_hi = lhs >> 64u32;
    let lhs_lo = lhs & lo_mask;
    let rhs_hi = rhs >> 64u32;
    let rhs_lo = rhs & lo_mask;
    proof { lemma_split64(lhs); }
    proof { lemma_split64(rhs); }
    proof {
        assert(lhs_lo * rhs_lo <= 0xFFFF_FFFF_FFFF_FFFE_0000_0000_0000_0001) by (nonlinear_arith)
            requires lhs_lo < 0x1_0000_0000_0000_0000, rhs_lo < 0x1_0000_0000_0000_0000;
        assert(lhs_hi * rhs_lo <= 0xFFFF_FFFF_FFFF_FFFE_0000_0000_0000_0001) by (nonlinear_arith)
            requires lhs_hi < 0x1_0000_0000_0000_0000, rhs_lo < 0x1_0000_0000_0000_0000;
        assert(lhs_lo * rhs_hi <= 0xFFFF_FFFF_FFFF_FFFE_0000_0000_0000_0001) by (nonlinear_arith)
            requires lhs_lo < 0x1_0000_0000_0000_0000, rhs_hi < 0x1_0000_0000_0000_0000;
        assert(lhs_hi * rhs_hi <= 0xFFFF_FFFF_FFFF_FFFE_0000_0000_0000_0001) by (nonlinear_arith)
            requires lhs_hi < 0x1_0000_0000_0000_0000, rhs_hi < 0x1_0000_0000_0000_0000;
    }
    let ll = lhs_lo * rhs_lo;
    let hl = lhs_hi * rhs_lo;
    let lh = lhs_lo * rhs_hi;
    let hh = lhs_hi * rhs_hi;

    let col01_hi = ll >> 64u32;
    let col01_lo = ll & lo_mask;
    proof { lemma_split64(ll); }
    let partial_col12 = hl + col01_hi;
    let room = u128::MAX - partial_col12;
    let (col12, carry_col3) = if lh <= room {
        (partial_col12 + lh, false)
    } else {
        (lh - room - 1, true)
    };
    let col12_hi = col12 >> 64u32;
    let col12_lo = col12 & lo_mask;
    proof { lemma_split64(col12); }
    let ans01 = col12_lo * 0x1_0000_0000_0000_0000 + col01_lo;
    let carry: u128 = if carry_col3 { 0x1_0000_0000_0000_0000 } else { 0 };
    proof {
        let c: int = if carry_col3 { 1 } else { 0 };
        assert(col12 + c * two128() == partial_col12 + lh);
        // lhs * rhs == hh * 2^128 + (hl + lh) * 2^64 + ll
        assert(lhs as nat * rhs as nat == hh * two128() + (hl + lh) * 0x1_0000_0000_0000_0000 + ll)
            by (nonlinear_arith)
            requires
                lhs == lhs_hi * 0x1_0000_0000_0000_0000 + lhs_lo,
                rhs == rhs_hi * 0x1_0000_0000_0000_0000 + rhs_lo,
                ll == lhs_lo * rhs_lo, hl == lhs_hi * rhs_lo,
                lh == lhs_lo * rhs_hi, hh == lhs_hi * rhs_hi,
                two128() == 0x1_0000_0000_0000_0000nat * 0x1_0000_0000_0000_0000nat;
        assert(hh + col12_hi + c * 0x1_0000_0000_0000_0000 < two128()) by (nonlinear_arith)
            requires
                lhs_hi < 0x1_0000_0000_0000_0000, rhs_hi < 0x1_0000_0000_0000_0000,
                lhs as nat * rhs as nat == hh * two128() + (hl + lh) * 0x1_0000_0000_0000_0000 + ll,
                hh == lhs_hi * rhs_hi,
                col12 + c * two128() == hl + ll / 0x1_0000_0000_0000_0000 + lh,
                col12 == col12_hi * 0x1_0000_0000_0000_0000 + col12_lo,
                col12_lo >= 0, ll >= 0, ll % 0x1_0000_0000_0000_0000 >= 0,
                ll == (ll / 0x1_0000_0000_0000_0000) * 0x1_0000_0000_0000_0000 + ll % 0x1_0000_0000_0000_0000,
                lhs < two128(), rhs < two128(),
                two128() == 0x1_0000_0000_0000_0000nat * 0x1_0000_0000_0000_0000nat;
    }
    let ans23 = hh + col12_hi + carry;
    proof {
        let c: int = if carry_col3 { 1 } else { 0 };
        assert(wide_value(ans23, ans01) == lhs as nat * rhs as nat) by (nonlinear_arith)
            requires
                lhs as nat * rhs as nat == hh * two128() + (hl + lh) * 0x1_0000_0000_0000_0000 + ll,
                col12 + c * two128() == hl + col01_hi + lh,
                col12 == col12_hi * 0x1_0000_0000_0000_0000 + col12_lo,
                ll == col01_hi * 0x1_0000_0000_0000_0000 + col01_lo,
                ans01 == col12_lo * 0x1_0000_0000_0000_0000 + col01_lo,
                ans23 == hh + col12_hi + c * 0x1_0000_0000_0000_0000,
                wide_value(ans23, ans01) == ans23 * two128() + ans01,
                two128() == 0x1_0000_0000_0000_0000nat * 0x1_0000_0000_0000_0000nat;
    }
    (ans23, ans01)
}

/// Quotient of the double-width value `(dividend_hi, dividend_lo)` by `divisor`,
/// by binary long division; the high half must be below the divisor, so that
/// the quotient fits in 128 bits.
pub fn div_wide(dividend_hi: u128, dividend_lo: u128, divisor: u128) -> (q: u128)
    requires
        dividend_hi < divisor,
    ensures
        q as nat == wide_value(dividend_hi, dividend_lo) / divisor as nat,
{
    let mut rem = dividend_hi;
    let mut quot: u128 = 0;
    let mut i: u128 = 0;
    proof {
        lemma_pow2_128();
        lemma_basic_div(dividend_lo as int, pow2(128) as int);
        lemma2_to64();
    }
    while i < 128
        invariant
            i <= 128,
            rem < divisor,
            quot < pow2(i as nat),
            dividend_hi * pow2(i as nat) + dividend_lo as nat / pow2((128 - i) as nat)
                == quot * divisor + rem,
        decreases 128 - i,
    {
        let shifted = dividend_lo >> (127 - i);
        let bit = shifted & 1;
        proof {
            let e = (127 - i) as nat;
            lemma_u128_shr_is_div(dividend_lo, (127 - i) as u128);
            assert(shifted & 1 == shifted % 2) by (bit_vector);
            lemma_pow2_adds(e, 1);
            lemma_pow2_adds(i as nat, 1);
            lemma2_to64();
            lemma_pow2_pos(e);
            lemma_div_denominator(dividend_lo as int, pow2(e) as int, 2);
            lemma_fundamental_div_mod(shifted as int, 2);
            if i < 127 {
                lemma_pow2_strictly_increases(i as nat, 127);
            }
            lemma_pow2_128();
            assert(dividend_hi * pow2((i + 1) as nat) == 2 * (dividend_hi * pow2(i as nat)))
                by (nonlinear_arith)
                requires pow2((i + 1) as nat) == pow2(i as nat) * 2;
            assert(pow2(e + 1) == pow2((128 - i) as nat));
            assert(dividend_lo as nat / pow2((128 - i) as nat) == shifted / 2);
            assert(dividend_hi * pow2((i + 1) as nat) + shifted
                == 2 * (quot * divisor + rem) + bit);
        }
        let gap = divisor - rem;
        let ghost q0 = quot;
        if rem + bit >= gap {
            rem = rem + bit - gap;
            quot = quot * 2 + 1;
            assert(quot * divisor == 2 * (q0 * divisor) + divisor) by (nonlinear_arith)
                requires quot == q0 * 2 + 1;
        } else {
            rem = rem * 2 + bit;
            quot = quot * 2;
            assert(quot * divisor == 2 * (q0 * divisor)) by (nonlinear_arith)
                requires quot == q0 * 2;
        }
        i = i + 1;
        assert(dividend_lo as nat / pow2((128 - i) as nat) == shifted);
    }
    proof {
        lemma_pow2_0();
        lemma_pow2_128();
        assert(dividend_lo as nat / pow2(0) == dividend_lo);
        assert(wide_value(dividend_hi, dividend_lo) == quot * divisor + rem);
        lemma_fundamental_div_mod_converse(
            wide_value(dividend_hi, dividend_lo) as int, divisor as int, quot as int, rem as int);
    }
    quot
}

/// `2^e` as a 128-bit integer.
pub fn pow2_u128(e: u32) -> (r: u128)
    requires
        e < 128,
    ensures
        r as nat == pow2(e as nat),
{
    let mut r: u128 = 1;
    let mut i: u32 = 0;
    proof {
        lemma2_to64();
    }
    while i < e
        invariant
            i <= e < 128,
            r as nat == pow2(i as nat),
        decreases e - i,
    {
        proof {
            lemma_pow2_adds(i as nat, 1);
            lemma2_to64();
            lemma_pow2_128();
            if i + 1 < 127 {
                lemma_pow2_strictly_increases((i + 1) as nat, 127);
            }
        }
        r = r * 2;
        i = i + 1;
    }
    r
}

/// Shifts the double-width value `(hi, lo)` left by `s` bits; the result
/// must fit in 256 bits.
pub fn wide_shl(hi: u128, lo: u128, s: u32) -> (r: (u128, u128))
    requires
        0 < s < 128,
        wide_value(hi, lo) * pow2(s as nat) < two128() * two128(),
    ensures
        wide_value(r.0, r.1) == wide_value(hi, lo) * pow2(s as nat),
{
    let up = pow2_u128(s);
    let down = pow2_u128(128 - s);
    let ghost t = two128();
    proof {
        lemma_pow2_adds(s as nat, (128 - s) as nat);
        lemma_pow2_128();
        lemma_pow2_pos((128 - s) as nat);
        lemma_pow2_pos(s as nat);
        lemma_fundamental_div_mod(lo as int, down as int);
        lemma_mod_bound(lo as int, down as int);
        let v = wide_value(hi, lo);
        assert(v * up == (hi * up + lo / down) * t + (lo % down) * up) by (nonlinear_arith)
            requires
                v == hi * t + lo,
                lo == down * (lo / down) + lo % down,
                up * down == t;
        assert((lo % down) * up < t) by (nonlinear_arith)
            requires lo % down < down, up * down == t, up > 0;
        assert(hi * up + lo / down < t) by (nonlinear_arith)
            requires
                v * up == (hi * up + lo / down) * t + (lo % down) * up,
                v * up < t * t,
                (lo % down) * up >= 0,
                t > 0;
    }
    (hi * up + lo / down, (lo % down) * up)
}

/// Shifts the double-width value `(hi, lo)` right by `s` bits, dropping the
/// bits shifted out.
pub fn wide_shr(hi: u128, lo: u128, s: u32) -> (r: (u128, u128))
    requires
        s <= 128,
    ensures
        wide_value(r.0, r.1) == wide_value(hi, lo) / pow2(s as nat),
{
    let ghost t = two128();
    let ghost v = wide_value(hi, lo);
    proof {
        lemma_pow2_128();
        lemma_pow2_0();
    }
    if s == 0 {
        (hi, lo)
    } else if s == 128 {
        proof {
            lemma_fundamental_div_mod_converse(v as int, t as int, hi as int, lo as int);
        }
        (0, hi)
    } else {
        let up = pow2_u128(128 - s);
        let down = pow2_u128(s);
        proof {
            lemma_pow2_adds(s as nat, (128 - s) as nat);
            lemma_pow2_pos(s as nat);
            lemma_fundamental_div_mod(hi as int, down as int);
            lemma_mod_bound(hi as int, down as int);
            lemma_fundamental_div_mod(lo as int, down as int);
            lemma_mod_bound(lo as int, down as int);
            let q = (hi / down) * t + (hi % down) * up + lo / down;
            let hq = hi / down;
            let hr = hi % down;
            let lq = lo / down;
            let lr = lo % down;
            assert(hi * t == hq * t * down + hr * up * down) by (nonlinear_arith)
                requires hi == down * hq + hr, up * down == t;
            assert(q * down == hq * t * down + hr * up * down + lq * down) by (nonlinear_arith)
                requires q == hq * t + hr * up + lq;
            assert(v == q * down + lo % down);
            lemma_fundamental_div_mod_converse(v as int, down as int, q as int, (lo % down) as int);
            assert((hi % down) * up + lo / down < t) by (nonlinear_arith)
                requires
                    hi % down < down, lo < t, up * down == t, down > 0,
                    lo == down * (lo / down) + lo % down, lo % down >= 0;
            assert(hi / down <= hi) by (nonlinear_arith)
                requires down > 0, hi == down * (hi / down) + hi % down, hi % down >= 0;
        }
        (hi / down, (hi % down) * up + lo / down)
    }
}

/// Dividing a double-width product by one of its factors gives back the
/// other: the product's high half is below that factor, so `div_wide` may
/// take it, and the quotient is exact.
pub proof fn lemma_div_wide_of_mul_hi_lo(a: u128, b: u128, hi: u128, lo: u128)
    requires
        b != 0,
        wide_value(hi, lo) == a as nat * b as nat,
    ensures
        hi < b,
        wide_value(hi, lo) / b as nat == a,
{
    let t = two128();
    assert(hi < b) by (nonlinear_arith)
        requires hi * t + lo == a * b, a < t, lo >= 0, b > 0;
    lemma_div_multiples_vanish(a as int, b as int);
    vstd::arithmetic::mul::lemma_mul_is_commutative(a as int, b as int);
}

} // verus!
