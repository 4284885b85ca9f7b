//! Rounding a fraction onto a grid of binary fraction bits.
use vstd::prelude::*;
use vstd::arithmetic::power::*;
use vstd::arithmetic::power2::*;
use vstd::arithmetic::div_mod::*;
use vstd::arithmetic::mul::*;

verus! {

/// `num / den` rounded to the nearest integer, halves rounded up.
pub open spec fn round_half_up(num: nat, den: nat) -> nat {
    (2 * num + den) / (2 * den)
}

/// The fraction `num / den` as a count of units of `2^-nbits`, rounded to
/// nearest with halves up. For a fraction below one it is at most `2^nbits`,
/// which is the case where it rounds to one whole unit.
pub open spec fn scaled_frac(num: nat, den: nat, nbits: nat) -> nat {
    round_half_up(num * pow2(nbits), den)
}

/// `x / m >= n` exactly when `x >= n * m`.
pub proof fn lemma_div_ge(x: nat, m: nat, n: nat)
    requires
        m > 0,
    ensures
        x / m >= n <==> x >= n * m,
{
    lemma_fundamental_div_mod(x as int, m as int);
    lemma_mod_bound(x as int, m as int);
    let q = x / m;
    let r = x % m;
    if q >= n {
        assert(q * m >= n * m) by (nonlinear_arith) requires q >= n, m > 0;
        assert(x >= n * m) by (nonlinear_arith)
            requires x == m * q + r, r >= 0, q * m >= n * m;
    } else {
        assert((q + 1) * m <= n * m) by (nonlinear_arith) requires q + 1 <= n, m > 0;
        assert(x < n * m) by (nonlinear_arith)
            requires x == m * q + r, r < m, (q + 1) * m <= n * m;
    }
}

/// Cross-multiplied fractions with equal products floor to the same value.
pub proof fn lemma_div_cross(n1: nat, d1: nat, n2: nat, d2: nat)
    requires
        d1 > 0,
        d2 > 0,
        n1 * d2 == n2 * d1,
    ensures
        n1 / d1 == n2 / d2,
{
    lemma_div_multiples_vanish_quotient(d2 as int, n1 as int, d1 as int);
    lemma_div_multiples_vanish_quotient(d1 as int, n2 as int, d2 as int);
    lemma_mul_is_commutative(d2 as int, n1 as int);
    lemma_mul_is_commutative(d1 as int, n2 as int);
    lemma_mul_is_commutative(d1 as int, d2 as int);
}

/// Equal fractions round to the same grid point, whatever their form.
pub proof fn lemma_scaled_frac_equal(n1: nat, d1: nat, n2: nat, d2: nat, nbits: nat)
    requires
        d1 > 0,
        d2 > 0,
        n1 * d2 == n2 * d1,
    ensures
        scaled_frac(n1, d1, nbits) == scaled_frac(n2, d2, nbits),
{
    let p = pow2(nbits);
    assert((2 * (n1 * p) + d1) * (2 * d2) == (2 * (n2 * p) + d2) * (2 * d1)) by (nonlinear_arith)
        requires n1 * d2 == n2 * d1;
    lemma_mul_strictly_positive(2, d1 as int);
    lemma_mul_strictly_positive(2, d2 as int);
    lemma_div_cross((2 * (n1 * p) + d1) as nat, 2 * d1, (2 * (n2 * p) + d2) as nat, 2 * d2);
}

/// Truncating `a * 2^(width + 1 - k)` by `dump` bits, adding `5^k` and
/// dividing by `2 * 5^k` rounds `a / 10^k` to `width - dump` fraction bits.
pub proof fn lemma_dec_round(a: nat, k: nat, width: nat, dump: nat)
    requires
        dump <= width,
        k <= width + 1,
    ensures
        ({
            let shift = a * pow2((width + 1 - k) as nat) / pow2(dump);
            (shift + pow(5, k)) as nat / (2 * pow(5, k)) as nat
                == scaled_frac(a, pow(10, k) as nat, (width - dump) as nat)
        }),
{
    let s0 = (width + 1 - k) as nat;
    let f = (width - dump) as nat;
    let pd = pow2(dump);
    let pk = pow2(k);
    let five = pow(5, k);
    let ten = pow(10, k);
    lemma_pow2_pos(dump);
    lemma_pow2_pos(k);
    lemma_pow_positive(5, k);
    lemma_pow_distributes(5, 2, k);
    lemma_pow2(k);
    assert(ten == five * pk);
    let x = a * pow2(s0);
    lemma_hoist_over_denominator(x as int, five, pd);
    lemma_mul_strictly_positive(pd as int, 2 * five);
    lemma_div_denominator((x + five * pd) as int, pd as int, 2 * five);
    lemma_pow2_adds(s0, k);
    lemma_pow2_adds(f, dump);
    lemma_pow2_adds(f + dump, 1);
    lemma2_to64();
    let nl = x + five * pd;
    let dl = pd * (2 * five);
    let nr = 2 * (a * pow2(f)) + ten;
    let dr = 2 * ten;
    assert(s0 + k == f + dump + 1);
    assert(nl * dr == nr * dl) by (nonlinear_arith)
        requires
            x == a * pow2(s0),
            pow2(s0) * pk == pow2(f) * pd * 2,
            ten == five * pk,
            nl == x + five * pd,
            dl == pd * (2 * five),
            nr == 2 * (a * pow2(f)) + ten,
            dr == 2 * ten;
    lemma_pow_positive(10, k);
    lemma_mul_strictly_positive(2, ten);
    lemma_div_cross(nl as nat, dl as nat, nr as nat, dr as nat);
}

/// Rounding a fraction whose denominator is a power of two, cut inside a
/// digit: `v = (acc * pd + g) * pp + rest` over `pi * pd * pp`, scaled by
/// `pi * pc` with `pd == pc * pe`. The digit `g` splits into `kept` (the bits
/// that still fit) and `low`; the result rounds up exactly when the highest
/// bit of `low` is set.
pub proof fn lemma_partial_round(
    acc: nat, g: nat, rest: nat, kept: nat, low: nat,
    pi: nat, pd: nat, pc: nat, pe: nat, h: nat, pp: nat,
)
    requires
        pd == pc * pe,
        pe == 2 * h,
        h > 0,
        pp > 0,
        pi > 0,
        pc > 0,
        rest < pp,
        g == kept * pe + low,
        low < pe,
    ensures
        ({
            let v = (acc * pd + g) * pp + rest;
            (2 * (v * (pi * pc)) + pi * pd * pp) / (2 * (pi * pd * pp))
                == acc * pc + kept + (if low >= h { 1nat } else { 0nat })
        }),
{
    let v = (acc * pd + g) * pp + rest;
    let m = pi * pc;
    let x = 2 * v + pe * pp;
    let y = 2 * pe * pp;
    lemma_mul_strictly_positive(pi as int, pc as int);
    lemma_mul_strictly_positive(pe as int, pp as int);
    assert(2 * (v * m) + pi * pd * pp == m * x) by (nonlinear_arith)
        requires m == pi * pc, pd == pc * pe, x == 2 * v + pe * pp;
    assert(2 * (pi * pd * pp) == m * y) by (nonlinear_arith)
        requires m == pi * pc, pd == pc * pe, y == 2 * pe * pp;
    assert(y > 0) by (nonlinear_arith) requires y == 2 * pe * pp, pe * pp > 0;
    lemma_div_multiples_vanish_quotient(m as int, x as int, y as int);
    let q = acc * pc + kept;
    let xr = 2 * low * pp + 2 * rest + pe * pp;
    assert(x == q * y + xr) by (nonlinear_arith)
        requires
            x == 2 * v + pe * pp,
            v == (acc * pd + g) * pp + rest,
            pd == pc * pe,
            g == kept * pe + low,
            q == acc * pc + kept,
            y == 2 * pe * pp,
            xr == 2 * low * pp + 2 * rest + pe * pp;
    let bit: nat = if low >= h { 1 } else { 0 };
    if low >= h {
        assert(xr - y < y && xr >= y) by (nonlinear_arith)
            requires
                low >= h, low < pe, pe == 2 * h, rest < pp, pp > 0,
                xr == 2 * low * pp + 2 * rest + pe * pp,
                y == 2 * pe * pp;
        assert((q + 1) * y == q * y + y) by (nonlinear_arith);
        lemma_fundamental_div_mod_converse(x as int, y as int, (q + 1) as int, (xr - y) as int);
    } else {
        assert(xr < y) by (nonlinear_arith)
            requires
                low + 1 <= h, pe == 2 * h, rest < pp, pp > 0,
                xr == 2 * low * pp + 2 * rest + pe * pp,
                y == 2 * pe * pp;
        lemma_fundamental_div_mod_converse(x as int, y as int, q as int, xr as int);
    }
}

/// A fraction whose digits all fit: `v / pa` scaled by `pa * pc` is exactly
/// `v * pc`.
pub proof fn lemma_exact_round(v: nat, pa: nat, pc: nat)
    requires
        pa > 0,
    ensures
        (2 * (v * (pa * pc)) + pa) / (2 * pa) == v * pc,
{
    assert(2 * (v * (pa * pc)) + pa == (v * pc) * (2 * pa) + pa) by (nonlinear_arith);
    lemma_fundamental_div_mod_converse(
        (2 * (v * (pa * pc)) + pa) as int, (2 * pa) as int, (v * pc) as int, pa as int);
}

} // verus!
