//! Facts about signs and finiteness: non-negative operands give
//! non-negative results, and an integer converts to a finite number.

use crate::ieee::{
    decode, from_nat, nearest_even, product, quantum_exp, round, sum, Format,
    Value,
};
use crate::power::{ilog2, lemma_ilog2_bounds, lemma_pow2_monotone, pow2_or_one};
use crate::rounding::{lemma_hidden_is_pow2, lemma_ratio_ilog2_unit};
use vstd::arithmetic::div_mod::lemma_fundamental_div_mod;
use vstd::arithmetic::power2::{lemma2_to64, lemma_pow2_adds, lemma_pow2_pos, pow2};
use vstd::prelude::*;

verus! {

/// A pattern that is no NaN and has no sign bit: a zero, a positive number
/// or positive infinity.
pub open spec fn non_negative(fmt: Format, bits: nat) -> bool {
    bits <= fmt.infinity()
}

/// A pattern that is finite and has no sign bit.
pub open spec fn finite_non_negative(fmt: Format, bits: nat) -> bool {
    bits < fmt.infinity()
}

/// A rounded result is never a NaN and has the sign it was given.
pub proof fn lemma_round_keeps_sign(fmt: Format, negative: bool, num: nat, den: nat, exp: int)
    ensures
        fmt.zero(negative) <= round(fmt, negative, num, den, exp) <= fmt.zero(negative)
            + fmt.infinity(),
{
    if num != 0 {
        let q = quantum_exp(fmt, num, den, exp);
        assert((q - fmt.min_exp()) * fmt.hidden() >= 0) by (nonlinear_arith)
            requires
                q - fmt.min_exp() >= 0,
                fmt.hidden() >= 0,
        ;
    }
}

/// The count of units that an integer significand rounds to fills the
/// precision at most: it is no more than `2^precision`.
pub proof fn lemma_count_fits_precision(fmt: Format, n: nat, exp: int)
    requires
        n >= 1,
    ensures
        ({
            let q = quantum_exp(fmt, n, 1, exp);
            nearest_even(n * pow2_or_one(exp - q), 1 * pow2_or_one(q - exp))
        }) <= 2 * fmt.hidden(),
{
    let width = (fmt.precision() - 1) as nat;
    let log = ilog2(n);
    let q = quantum_exp(fmt, n, 1, exp);
    lemma_ratio_ilog2_unit(n);
    lemma_ilog2_bounds(n);
    lemma_hidden_is_pow2(fmt);
    lemma2_to64();
    lemma_pow2_adds(width, 1);
    assert(pow2(width + 1) == 2 * fmt.hidden());
    if q <= exp {
        let s = (exp - q) as nat;
        let scaled = n * pow2_or_one(exp - q);
        assert(pow2_or_one(exp - q) == pow2(s));
        assert(1 * pow2_or_one(q - exp) == 1);
        lemma_pow2_adds(log + 1, s);
        lemma_pow2_monotone(log + 1 + s, width + 1);
        lemma_pow2_pos(s);
        assert(n * pow2(s) < pow2(log + 1) * pow2(s)) by (nonlinear_arith)
            requires
                n < pow2(log + 1),
                pow2(s) > 0,
        ;
        assert(scaled / 1 == scaled);
        assert(scaled % 1 == 0);
    } else {
        let t = (q - exp) as nat;
        let d = pow2(t);
        assert(pow2_or_one(exp - q) == 1);
        assert(1 * pow2_or_one(q - exp) == d);
        assert(n * 1 == n);
        lemma_pow2_pos(t);
        lemma_pow2_adds(width + 1, t);
        lemma_pow2_monotone(log + 1, width + 1 + t);
        lemma_fundamental_div_mod(n as int, d as int);
        let quot = n as int / d as int;
        let rem = n as int % d as int;
        let limit = pow2(width + 1) as int;
        assert(quot < limit) by (nonlinear_arith)
            requires
                n == d * quot + rem,
                0 <= rem,
                n < limit * d,
                d > 0,
        ;
    }
}

/// A natural number below `2^64` converts to a finite, non-negative double.
pub proof fn lemma_from_nat_is_finite(n: nat)
    requires
        n < 0x1_0000_0000_0000_0000,
    ensures
        finite_non_negative(Format::Double, from_nat(Format::Double, n)),
{
    if n != 0 {
        let fmt = Format::Double;
        lemma_count_fits_precision(fmt, n, 0);
        lemma_ratio_ilog2_unit(n);
        lemma_ilog2_bounds(n);
        lemma2_to64();
        if ilog2(n) >= 64 {
            lemma_pow2_monotone(64, ilog2(n));
        }
        let q = quantum_exp(fmt, n, 1, 0);
        assert(-52 <= q <= 11);
    }
}

/// The product of two finite non-negative patterns is non-negative.
pub proof fn lemma_product_non_negative(fmt: Format, a: nat, b: nat)
    requires
        finite_non_negative(fmt, a),
        finite_non_negative(fmt, b),
    ensures
        non_negative(fmt, product(fmt, decode(fmt, a), decode(fmt, b))),
        a == 0 ==> product(fmt, decode(fmt, a), decode(fmt, b)) == 0,
{
    let x = decode(fmt, a);
    let y = decode(fmt, b);
    assert(x is Finite && y is Finite);
    match (x, y) {
        (
            Value::Finite { negative: na, significand: ma, exponent: ea },
            Value::Finite { negative: nb, significand: mb, exponent: eb },
        ) => {
            lemma_round_keeps_sign(fmt, false, ma * mb, 1, ea + eb);
            if a == 0 {
                assert(ma == 0);
                assert(ma * mb == 0) by (nonlinear_arith)
                    requires
                        ma == 0,
                ;
            }
        },
        _ => {},
    }
}

/// The sum of two non-negative patterns is non-negative.
pub proof fn lemma_sum_non_negative(fmt: Format, a: nat, b: nat)
    requires
        non_negative(fmt, a),
        non_negative(fmt, b),
    ensures
        non_negative(fmt, sum(fmt, decode(fmt, a), decode(fmt, b))),
{
    let x = decode(fmt, a);
    let y = decode(fmt, b);
    match (x, y) {
        (
            Value::Finite { negative: na, significand: ma, exponent: ea },
            Value::Finite { negative: nb, significand: mb, exponent: eb },
        ) => {
            let e = if ea <= eb {
                ea
            } else {
                eb
            };
            let fa = pow2_or_one(ea - e);
            let fb = pow2_or_one(eb - e);
            let s = x.signed_significand() * fa + y.signed_significand() * fb;
            assert(s >= 0) by (nonlinear_arith)
                requires
                    s == x.signed_significand() * fa + y.signed_significand() * fb,
                    x.signed_significand() >= 0,
                    y.signed_significand() >= 0,
                    fa >= 0,
                    fb >= 0,
            ;
            if s > 0 {
                lemma_round_keeps_sign(fmt, false, s as nat, 1, e);
            }
        },
        _ => {},
    }
}

} // verus!
