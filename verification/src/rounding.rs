//! Facts about rounding that the kernel's shortcuts rest on.

use crate::ieee::{
    decode, magnitude_of, nearest_even, quantum_exp, ratio_ilog2, round, Format, Value,
};
use crate::power::{
    ilog2, lemma_ilog2_bounds, lemma_ilog2_unique, lemma_pow2_monotone, pow2_or_one,
};
use vstd::arithmetic::div_mod::{
    lemma_div_multiples_vanish_quotient, lemma_fundamental_div_mod,
    lemma_fundamental_div_mod_converse, lemma_truncate_middle,
};
use vstd::arithmetic::power2::{
    lemma2_to64, lemma_pow2_adds, lemma_pow2_pos, lemma_pow2_unfold, pow2,
};
use vstd::prelude::*;

verus! {

/// The weight of the implicit bit is a power of two.
pub proof fn lemma_hidden_is_pow2(fmt: Format)
    ensures
        fmt.hidden() == pow2((fmt.precision() - 1) as nat),
{
    lemma2_to64();
    lemma_pow2_adds(32, 20);
}

/// The logarithm of a ratio with denominator one is that of the numerator.
pub proof fn lemma_ratio_ilog2_unit(n: nat)
    requires
        n >= 1,
    ensures
        ratio_ilog2(n, 1) == ilog2(n),
{
    lemma_ilog2_bounds(n);
    lemma2_to64();
    assert(ilog2(1) == 0);
    assert(n * 1 == n);
    assert(1 * pow2_or_one(ilog2(n) as int) == pow2_or_one(ilog2(n) as int));
}

/// A finite pattern is its sign bit, plus the exponent's distance from the
/// least exponent in steps of `hidden`, plus the significand.
pub proof fn lemma_pattern_of_finite(fmt: Format, bits: nat)
    requires
        bits < 2 * fmt.sign_bit(),
        decode(fmt, bits) is Finite,
    ensures
        decode(fmt, bits) matches Value::Finite { negative, significand, exponent } && {
            &&& bits == fmt.zero(negative) + (exponent - fmt.min_exp()) * fmt.hidden()
                + significand
            &&& (exponent - fmt.min_exp()) * fmt.hidden() + significand < fmt.infinity()
        },
{
    let magnitude = magnitude_of(fmt, bits);
    lemma_fundamental_div_mod(magnitude as int, fmt.hidden() as int);
    match fmt {
        Format::Single => {
            assert(magnitude == 0x80_0000 * (magnitude / 0x80_0000) + magnitude % 0x80_0000);
        },
        Format::Double => {
            assert(magnitude == 0x10_0000_0000_0000 * (magnitude / 0x10_0000_0000_0000)
                + magnitude % 0x10_0000_0000_0000);
        },
    }
}

/// Rounding `n * 2^e` where `n` has quotient `quot` and remainder `rem` by
/// `2^shift`, and `quot` fills the precision exactly: the result counts
/// `quot` units of `2^(e + shift)`, one more where the remainder is above
/// half a unit.
proof fn lemma_round_split(
    fmt: Format,
    negative: bool,
    n: nat,
    e: int,
    shift: nat,
    quot: nat,
    rem: nat,
)
    requires
        shift > 0,
        n == quot * pow2(shift) + rem,
        rem < pow2(shift),
        2 * rem != pow2(shift),
        fmt.hidden() <= quot < 2 * fmt.hidden(),
        e + shift >= fmt.min_exp(),
    ensures
        round(fmt, negative, n, 1, e) == fmt.zero(negative) + ({
            let count = if 2 * rem > pow2(shift) {
                quot + 1
            } else {
                quot
            };
            let magnitude = (e + shift - fmt.min_exp()) * fmt.hidden() + count;
            if magnitude >= fmt.infinity() {
                fmt.infinity() as int
            } else {
                magnitude
            }
        }),
{
    let width = (fmt.precision() - 1) as nat;
    let g = pow2(shift);
    lemma_hidden_is_pow2(fmt);
    lemma_pow2_pos(shift);
    lemma_pow2_adds(width, shift);
    lemma_pow2_adds(width + 1, shift);
    lemma_pow2_unfold(width + 1);
    let h = fmt.hidden();
    assert(h * g <= quot * g) by (nonlinear_arith)
        requires
            h <= quot,
            g > 0,
    ;
    assert((quot + 1) * g <= 2 * h * g) by (nonlinear_arith)
        requires
            quot + 1 <= 2 * h,
            g > 0,
    ;
    assert((quot + 1) * g == quot * g + g) by (nonlinear_arith);
    assert(pow2(width + shift) <= n < pow2(width + shift + 1));
    lemma_ilog2_unique(n, width + shift);
    lemma_ratio_ilog2_unit(n);
    let q = quantum_exp(fmt, n, 1, e);
    assert(q == e + shift);
    assert(pow2_or_one(e - q) == 1);
    assert(pow2_or_one(q - e) == g);
    assert(n * 1 == n);
    assert(1 * g == g);
    lemma_fundamental_div_mod_converse(n as int, g as int, quot as int, rem as int);
    assert(n / g == quot);
    assert(n % g == rem);
}

/// Adding to, or taking from, a normal number something more than 64
/// binary places below its last place leaves it unchanged: the exact result,
/// `m * 2^gap ± small` in units of the smaller operand's last place, rounds
/// back to the pattern of `m * 2^e`.
pub proof fn lemma_round_absorbs(
    fmt: Format,
    negative: bool,
    m: nat,
    e: int,
    gap: nat,
    small: nat,
    subtract: bool,
)
    requires
        fmt.hidden() <= m < 2 * fmt.hidden(),
        fmt.min_exp() < e,
        (e - fmt.min_exp()) * fmt.hidden() + m < fmt.infinity(),
        gap >= 65,
        small < 2 * fmt.hidden(),
    ensures
        m * pow2(gap) > small,
        round(
            fmt,
            negative,
            if subtract {
                (m * pow2(gap) - small) as nat
            } else {
                m * pow2(gap) + small
            },
            1,
            e - gap,
        ) == fmt.zero(negative) + (e - fmt.min_exp()) * fmt.hidden() + m,
{
    let h = fmt.hidden();
    let g = pow2(gap);
    let g2 = pow2((gap - 1) as nat);
    lemma_pow2_unfold(gap);
    lemma_pow2_monotone(64, (gap - 1) as nat);
    lemma2_to64();
    assert(g2 >= 0x1_0000_0000_0000_0000);
    assert(m * g >= g) by (nonlinear_arith)
        requires
            m >= 1,
            g >= 0,
    ;
    if !subtract || small == 0 {
        lemma_round_split(fmt, negative, m * g + small, e - gap, gap, m, small);
    } else if m > h {
        assert(m * g - small == (m - 1) * g + (g - small)) by (nonlinear_arith);
        lemma_round_split(
            fmt,
            negative,
            (m * g - small) as nat,
            e - gap,
            gap,
            (m - 1) as nat,
            (g - small) as nat,
        );
    } else {
        assert(m * g - small == (2 * h - 1) * g2 + (g2 - small)) by (nonlinear_arith)
            requires
                m == h,
                g == 2 * g2,
        ;
        lemma_round_split(
            fmt,
            negative,
            (m * g - small) as nat,
            e - gap,
            (gap - 1) as nat,
            (2 * h - 1) as nat,
            (g2 - small) as nat,
        );
    }
}

/// The sum of two finite values in terms of magnitudes: with `big` the
/// significand of the operand of larger exponent, in units of the other's last
/// place, the result is the rounded sum of the magnitudes where the signs
/// agree, and their rounded difference under the sign of the larger where
/// they do not.
pub proof fn lemma_sum_by_magnitude(
    fmt: Format,
    nh: bool,
    mh: nat,
    eh: int,
    nl: bool,
    ml: nat,
    el: int,
)
    requires
        eh >= el,
    ensures
        crate::ieee::sum(
            fmt,
            Value::Finite { negative: nh, significand: mh, exponent: eh },
            Value::Finite { negative: nl, significand: ml, exponent: el },
        ) == ({
            let big = mh * pow2_or_one(eh - el);
            if nh == nl {
                round(fmt, nh, big + ml, 1, el)
            } else if big > ml {
                round(fmt, nh, (big - ml) as nat, 1, el)
            } else if big < ml {
                round(fmt, nl, (ml - big) as nat, 1, el)
            } else {
                fmt.zero(false)
            }
        }),
        crate::ieee::sum(
            fmt,
            Value::Finite { negative: nl, significand: ml, exponent: el },
            Value::Finite { negative: nh, significand: mh, exponent: eh },
        ) == crate::ieee::sum(
            fmt,
            Value::Finite { negative: nh, significand: mh, exponent: eh },
            Value::Finite { negative: nl, significand: ml, exponent: el },
        ),
{
    let hi = Value::Finite { negative: nh, significand: mh, exponent: eh };
    let lo = Value::Finite { negative: nl, significand: ml, exponent: el };
    let f = pow2_or_one(eh - el);
    let big = mh * f;
    let x = hi.signed_significand();
    let y = lo.signed_significand();
    assert(pow2_or_one(el - el) == 1);
    assert(y * 1 == y);
    assert(x * f == if nh {
        -(big as int)
    } else {
        big as int
    }) by (nonlinear_arith)
        requires
            x == if nh {
                -(mh as int)
            } else {
                mh as int
            },
            big == mh * f,
    ;
    assert(x * f + y * 1 == y * 1 + x * f);
    if eh == el {
        assert(pow2_or_one(el - eh) == 1);
    }
}

/// Rounding a ratio to the nearest integer sees the ratio only: a factor
/// common to both terms makes no difference.
pub proof fn lemma_nearest_even_cancels(n: nat, d: nat, c: nat)
    requires
        d > 0,
        c > 0,
    ensures
        nearest_even(n * c, d * c) == nearest_even(n, d),
{
    let ni = n as int;
    let di = d as int;
    let ci = c as int;
    lemma_div_multiples_vanish_quotient(ci, ni, di);
    lemma_truncate_middle(ni, ci, di);
    assert(n * c == ci * ni && d * c == ci * di) by (nonlinear_arith)
        requires
            ni == n,
            di == d,
            ci == c,
    ;
    let r = ni % di;
    assert((n * c) / (d * c) == n / d);
    assert(((n * c) % (d * c)) as int == ci * r);
    assert((2 * (ci * r) > ci * di) == (2 * r > di) && (2 * (ci * r) == ci * di) == (2 * r
        == di)) by (nonlinear_arith)
        requires
            ci > 0,
    ;
}

/// The logarithm of a number scaled up by `j` binary places is `j` more.
pub proof fn lemma_ilog2_scaled(n: nat, j: nat)
    requires
        n >= 1,
    ensures
        ilog2(n * pow2(j)) == ilog2(n) + j,
{
    let log = ilog2(n);
    lemma_ilog2_bounds(n);
    lemma_pow2_adds(log, j);
    lemma_pow2_adds(log + 1, j);
    lemma_pow2_pos(j);
    let g = pow2(j);
    assert(pow2(log) * g <= n * g < pow2(log + 1) * g) by (nonlinear_arith)
        requires
            pow2(log) <= n < pow2(log + 1),
            g > 0,
    ;
    lemma_ilog2_unique(n * g, log + j);
}

/// Rounding sees the value only: `n * 2^j` at exponent `e - j` rounds as
/// `n` at exponent `e` does.
pub proof fn lemma_round_scaled(fmt: Format, negative: bool, n: nat, e: int, j: nat)
    ensures
        round(fmt, negative, n * pow2(j), 1, e - j) == round(fmt, negative, n, 1, e),
{
    lemma_pow2_pos(j);
    let g = pow2(j);
    if n == 0 {
        assert(n * g == 0) by (nonlinear_arith)
            requires
                n == 0,
        ;
    } else {
        assert(n * g >= 1) by (nonlinear_arith)
            requires
                n >= 1,
                g >= 1,
        ;
        lemma_ilog2_scaled(n, j);
        lemma_ratio_ilog2_unit(n);
        lemma_ratio_ilog2_unit(n * g);
        let q = quantum_exp(fmt, n, 1, e);
        assert(quantum_exp(fmt, n * g, 1, e - j) == q);
        let up = pow2_or_one(e - q);
        let down = 1 * pow2_or_one(q - e);
        let up2 = pow2_or_one(e - j - q);
        let down2 = 1 * pow2_or_one(q - (e - j));
        lemma2_to64();
        if e - q >= j {
            // Both are counted in whole units.
            let s = (e - j - q) as nat;
            lemma_pow2_adds(j, s);
            assert(up2 == pow2(s));
            assert(up == pow2(j + s));
            assert((n * g) * up2 == n * up) by (nonlinear_arith)
                requires
                    up == g * up2,
            ;
            assert(down == down2);
        } else if e - q >= 0 {
            // The scaled one is counted in fractions of what the other is.
            let s = (e - q) as nat;
            let c = pow2((j - s) as nat);
            lemma_pow2_adds(s, (j - s) as nat);
            lemma_pow2_pos((j - s) as nat);
            assert(up == pow2(s));
            assert(up2 == 1);
            assert(down == 1);
            assert(down2 == c);
            assert((n * g) * up2 == (n * up) * c) by (nonlinear_arith)
                requires
                    g == up * c,
                    up2 == 1,
            ;
            assert(down2 == down * c);
            lemma_nearest_even_cancels(n * up, down, c);
        } else {
            let t = (q - e) as nat;
            lemma_pow2_adds(t, j);
            lemma_pow2_pos(t);
            assert(up == 1 && up2 == 1);
            assert(down == pow2(t));
            assert(down2 == pow2(t + j));
            assert((n * g) * up2 == (n * up) * g) by (nonlinear_arith)
                requires
                    up == 1,
                    up2 == 1,
            ;
            assert(down2 == down * g);
            lemma_nearest_even_cancels(n * up, down, g);
        }
    }
}

} // verus!
