//! Exact arithmetic on half-integers: below `2^52`, a digest's weights and
//! the positions of its centroids' middles are computed without rounding.

use crate::ieee::{decode, from_nat, nearest_even, product, quantum_exp, round, sum, Format, Value};
use crate::power::{ilog2, lemma_ilog2_bounds, lemma_pow2_monotone, pow2_or_one};
use crate::rounding::{lemma_ratio_ilog2_unit, lemma_round_scaled};
use vstd::arithmetic::power2::{lemma2_to64, lemma_pow2_adds, lemma_pow2_pos, pow2};
use vstd::prelude::*;

verus! {

/// The double that `k / 2` rounds to.
pub open spec fn halves(k: nat) -> nat {
    round(Format::Double, false, k, 1, -1)
}

/// `bits` is the double `k / 2`, exactly: a non-negative finite pattern
/// whose significand, at an exponent of `-1` or below, counts `k` halves.
pub open spec fn is_halves(bits: nat, k: nat) -> bool {
    &&& bits == halves(k)
    &&& bits < Format::Double.infinity()
    &&& decode(Format::Double, bits) matches Value::Finite { negative, significand, exponent }
    &&& !negative
    &&& exponent <= -1
    &&& significand == k * pow2((-1 - exponent) as nat)
}

/// The powers of two at the ends of the double's significand.
proof fn lemma_pow2_52()
    ensures
        pow2(0) == 1,
        pow2(1) == 2,
        pow2(52) == 0x10_0000_0000_0000,
        pow2(53) == 0x20_0000_0000_0000,
{
    lemma2_to64();
    lemma_pow2_adds(32, 20);
    lemma_pow2_adds(32, 21);
}

/// A number below `2^53` has a logarithm of 52 at most.
proof fn lemma_ilog2_below_53(k: nat)
    requires
        1 <= k < 0x20_0000_0000_0000,
    ensures
        ilog2(k) <= 52,
{
    lemma_ilog2_bounds(k);
    lemma_pow2_52();
    if ilog2(k) >= 53 {
        lemma_pow2_monotone(53, ilog2(k));
    }
}

/// Every half-integer below `2^52` is a double: `k / 2` rounds to itself.
/// Its pattern is the logarithm of `k`, biased, above `k` shifted to fill the
/// significand.
pub proof fn lemma_halves_are_exact(k: nat)
    requires
        k < 0x20_0000_0000_0000,
    ensures
        is_halves(halves(k), k),
        k == 0 ==> halves(k) == 0,
        k >= 1 ==> halves(k) == (ilog2(k) + 1021) * 0x10_0000_0000_0000 + k * pow2(
            (52 - ilog2(k)) as nat,
        ),
        k >= 1 ==> 0x10_0000_0000_0000 <= k * pow2((52 - ilog2(k)) as nat) < 0x20_0000_0000_0000,
{
    let fmt = Format::Double;
    lemma_pow2_52();
    if k == 0 {
        assert(decode(fmt, 0) == Value::Finite {
            negative: false,
            significand: 0,
            exponent: -1074,
        });
        assert(0 * pow2((-1 - (-1074)) as nat) == 0);
    } else {
        let log = ilog2(k);
        lemma_ilog2_below_53(k);
        lemma_ilog2_bounds(k);
        lemma_ratio_ilog2_unit(k);
        let q = quantum_exp(fmt, k, 1, -1);
        assert(q == log - 53);
        let s = (52 - log) as nat;
        let g = pow2(s);
        lemma_pow2_pos(s);
        lemma_pow2_adds(log, s);
        lemma_pow2_adds(log + 1, s);
        let n = k * g;
        assert(pow2(log) * g <= n < pow2(log + 1) * g) by (nonlinear_arith)
            requires
                pow2(log) <= k < pow2(log + 1),
                g > 0,
                n == k * g,
        ;
        assert(pow2_or_one(-1 - q) == g);
        assert(1 * pow2_or_one(q - (-1)) == 1);
        assert(n / 1 == n);
        assert(n % 1 == 0);
        assert(nearest_even(n, 1) == n);
        let bits = (log + 1021) * 0x10_0000_0000_0000 + n;
        assert(halves(k) == bits);
        assert(bits / 0x10_0000_0000_0000 == log + 1022);
        assert(bits % 0x10_0000_0000_0000 == n - 0x10_0000_0000_0000);
        assert(decode(fmt, bits as nat) == Value::Finite {
            negative: false,
            significand: n,
            exponent: q,
        });
    }
}

/// Among the half-integers below `2^52`, the larger has the larger pattern.
pub proof fn lemma_halves_increase(a: nat, b: nat)
    requires
        a < b < 0x20_0000_0000_0000,
    ensures
        halves(a) < halves(b),
{
    lemma_halves_are_exact(a);
    lemma_halves_are_exact(b);
    if a >= 1 {
        let la = ilog2(a);
        let lb = ilog2(b);
        lemma_ilog2_bounds(a);
        lemma_ilog2_bounds(b);
        if la > lb {
            lemma_pow2_monotone(lb + 1, la);
        }
        lemma_ilog2_below_53(b);
        if la == lb {
            let g = pow2((52 - la) as nat);
            lemma_pow2_pos((52 - la) as nat);
            assert(a * g < b * g) by (nonlinear_arith)
                requires
                    a < b,
                    g > 0,
            ;
        }
    }
}

/// A natural number below `2^52` converts to itself.
pub proof fn lemma_from_nat_is_exact(n: nat)
    requires
        n < 0x10_0000_0000_0000,
    ensures
        from_nat(Format::Double, n) == halves(2 * n),
{
    lemma_pow2_52();
    lemma_round_scaled(Format::Double, false, n, 0, 1);
    assert(n * pow2(1) == 2 * n);
}

/// Halving a natural number below `2^52` is exact.
pub proof fn lemma_half_is_exact(c: nat)
    requires
        c < 0x10_0000_0000_0000,
    ensures
        product(
            Format::Double,
            decode(Format::Double, halves(2 * c)),
            decode(Format::Double, 0x3fe0_0000_0000_0000),
        ) == halves(c),
{
    let fmt = Format::Double;
    lemma_pow2_52();
    lemma_halves_are_exact(2 * c);
    assert(decode(fmt, 0x3fe0_0000_0000_0000) == Value::Finite {
        negative: false,
        significand: 0x10_0000_0000_0000,
        exponent: -53,
    });
    match decode(fmt, halves(2 * c)) {
        Value::Finite { negative, significand, exponent } => {
            let up = (-1 - exponent) as nat;
            let j = (52 - exponent) as nat;
            lemma_pow2_adds(1, up);
            lemma_pow2_adds(1 + up, 52);
            assert(significand * 0x10_0000_0000_0000 == c * pow2(j)) by (nonlinear_arith)
                requires
                    significand == (2 * c) * pow2(up),
                    pow2(j) == 2 * pow2(up) * 0x10_0000_0000_0000,
            ;
            lemma_round_scaled(fmt, false, c, -1, j);
        },
        _ => {},
    }
}

/// Multiplying a half-integer below `2^52` by one is exact.
pub proof fn lemma_one_times_is_exact(k: nat)
    requires
        k < 0x20_0000_0000_0000,
    ensures
        product(
            Format::Double,
            decode(Format::Double, 0x3ff0_0000_0000_0000),
            decode(Format::Double, halves(k)),
        ) == halves(k),
{
    let fmt = Format::Double;
    lemma_pow2_52();
    lemma_halves_are_exact(k);
    assert(decode(fmt, 0x3ff0_0000_0000_0000) == Value::Finite {
        negative: false,
        significand: 0x10_0000_0000_0000,
        exponent: -52,
    });
    match decode(fmt, halves(k)) {
        Value::Finite { negative, significand, exponent } => {
            let up = (-1 - exponent) as nat;
            let j = (51 - exponent) as nat;
            lemma_pow2_adds(up, 52);
            assert(0x10_0000_0000_0000 * significand == k * pow2(j)) by (nonlinear_arith)
                requires
                    significand == k * pow2(up),
                    pow2(j) == pow2(up) * 0x10_0000_0000_0000,
            ;
            lemma_round_scaled(fmt, false, k, -1, j);
        },
        _ => {},
    }
}

/// Adding two half-integers is exact where the sum stays below `2^52`.
pub proof fn lemma_sum_is_exact(a: nat, b: nat)
    requires
        a + b < 0x20_0000_0000_0000,
    ensures
        sum(
            Format::Double,
            decode(Format::Double, halves(a)),
            decode(Format::Double, halves(b)),
        ) == halves(a + b),
{
    let fmt = Format::Double;
    lemma_halves_are_exact(a);
    lemma_halves_are_exact(b);
    let x = decode(fmt, halves(a));
    let y = decode(fmt, halves(b));
    match (x, y) {
        (
            Value::Finite { negative: na, significand: ma, exponent: ea },
            Value::Finite { negative: nb, significand: mb, exponent: eb },
        ) => {
            let e = if ea <= eb {
                ea
            } else {
                eb
            };
            let j = (-1 - e) as nat;
            let fa = pow2_or_one(ea - e);
            let fb = pow2_or_one(eb - e);
            lemma2_to64();
            lemma_pow2_adds((-1 - ea) as nat, (ea - e) as nat);
            lemma_pow2_adds((-1 - eb) as nat, (eb - e) as nat);
            assert(fa == pow2((ea - e) as nat));
            assert(fb == pow2((eb - e) as nat));
            let g = pow2(j);
            assert(ma * fa == a * g) by (nonlinear_arith)
                requires
                    ma == a * pow2((-1 - ea) as nat),
                    g == pow2((-1 - ea) as nat) * fa,
            ;
            assert(mb * fb == b * g) by (nonlinear_arith)
                requires
                    mb == b * pow2((-1 - eb) as nat),
                    g == pow2((-1 - eb) as nat) * fb,
            ;
            let s = x.signed_significand() * fa + y.signed_significand() * fb;
            assert(s == (a + b) * g) by (nonlinear_arith)
                requires
                    s == ma * fa + mb * fb,
                    ma * fa == a * g,
                    mb * fb == b * g,
            ;
            lemma_pow2_pos(j);
            if a + b == 0 {
                assert(s == 0);
            } else {
                assert(s > 0) by (nonlinear_arith)
                    requires
                        s == (a + b) * g,
                        a + b > 0,
                        g > 0,
                ;
                lemma_round_scaled(fmt, false, a + b, -1, j);
            }
        },
        _ => {},
    }
}

} // verus!
