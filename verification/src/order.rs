//! The order of patterns is the order of the numbers they denote.

use crate::ieee::{decode, equal, less, magnitude_of, Format, Value};
use crate::power::{lemma_pow2_monotone, pow2_or_one};
use vstd::arithmetic::div_mod::lemma_fundamental_div_mod;
use vstd::arithmetic::power2::{lemma2_to64, lemma_pow2_pos};
use vstd::prelude::*;

verus! {

/// `a < b` for two values, as numbers: false where either is a NaN. Finite
/// values are compared over the smaller of their exponents.
pub open spec fn value_less(a: Value, b: Value) -> bool {
    match (a, b) {
        (Value::Nan, _) => false,
        (_, Value::Nan) => false,
        (Value::Infinite { negative: na }, Value::Infinite { negative: nb }) => na && !nb,
        (Value::Infinite { negative }, Value::Finite { .. }) => negative,
        (Value::Finite { .. }, Value::Infinite { negative }) => !negative,
        (Value::Finite { exponent: ea, .. }, Value::Finite { exponent: eb, .. }) => {
            let e = if ea <= eb {
                ea
            } else {
                eb
            };
            a.signed_significand() * pow2_or_one(ea - e) < b.signed_significand() * pow2_or_one(
                eb - e,
            )
        },
    }
}

/// `a == b` for two values, as numbers: false where either is a NaN, true of
/// the two zeros.
pub open spec fn value_equal(a: Value, b: Value) -> bool {
    match (a, b) {
        (Value::Nan, _) => false,
        (_, Value::Nan) => false,
        (Value::Infinite { negative: na }, Value::Infinite { negative: nb }) => na == nb,
        (Value::Infinite { .. }, Value::Finite { .. }) => false,
        (Value::Finite { .. }, Value::Infinite { .. }) => false,
        (Value::Finite { exponent: ea, .. }, Value::Finite { exponent: eb, .. }) => {
            let e = if ea <= eb {
                ea
            } else {
                eb
            };
            a.signed_significand() * pow2_or_one(ea - e) == b.signed_significand() * pow2_or_one(
                eb - e,
            )
        },
    }
}

/// The significand and exponent that a finite magnitude decodes to.
spec fn parts(fmt: Format, magnitude: nat) -> (nat, int) {
    let biased = magnitude / fmt.hidden();
    let fraction = magnitude % fmt.hidden();
    if biased == 0 {
        (fraction, fmt.min_exp())
    } else {
        (fmt.hidden() + fraction, fmt.min_exp() + biased - 1)
    }
}

/// Of two finite magnitudes, the smaller pattern denotes the smaller
/// number: its significand, brought to the exponent of the other, is
/// smaller.
proof fn lemma_magnitudes_in_order(fmt: Format, a: nat, b: nat)
    requires
        a < b < fmt.infinity(),
    ensures
        parts(fmt, a).1 <= parts(fmt, b).1,
        parts(fmt, a).0 < parts(fmt, b).0 * pow2_or_one(parts(fmt, b).1 - parts(fmt, a).1),
{
    let h = fmt.hidden();
    lemma_fundamental_div_mod(a as int, h as int);
    lemma_fundamental_div_mod(b as int, h as int);
    let (ma, ea) = parts(fmt, a);
    let (mb, eb) = parts(fmt, b);
    let ba = a / h;
    let bb = b / h;
    assert(ba <= bb && (ba == bb ==> a % h < b % h)) by (nonlinear_arith)
        requires
            a < b,
            h > 0,
            a == h * ba + a % h,
            b == h * bb + b % h,
            0 <= a % h < h,
            0 <= b % h < h,
    ;
    let f = pow2_or_one(eb - ea);
    if ea == eb {
        assert(f == 1);
        assert(mb * 1 == mb);
    } else {
        lemma2_to64();
        lemma_pow2_monotone(1, (eb - ea) as nat);
        assert(mb * f >= 2 * h) by (nonlinear_arith)
            requires
                mb >= h,
                f >= 2,
                h > 0,
        ;
    }
}

/// The order of two patterns under `less` and `equal` is the order of the
/// numbers that they denote.
pub proof fn lemma_order_is_by_value(fmt: Format, a: nat, b: nat)
    requires
        a < 2 * fmt.sign_bit(),
        b < 2 * fmt.sign_bit(),
    ensures
        less(fmt, a, b) == value_less(decode(fmt, a), decode(fmt, b)),
        equal(fmt, a, b) == value_equal(decode(fmt, a), decode(fmt, b)),
{
    let x = decode(fmt, a);
    let y = decode(fmt, b);
    let ma = magnitude_of(fmt, a);
    let mb = magnitude_of(fmt, b);
    match (x, y) {
        (
            Value::Finite { negative: na, significand: sa, exponent: ea },
            Value::Finite { negative: nb, significand: sb, exponent: eb },
        ) => {
            assert((sa, ea) == parts(fmt, ma));
            assert((sb, eb) == parts(fmt, mb));
            let e = if ea <= eb {
                ea
            } else {
                eb
            };
            let fa = pow2_or_one(ea - e);
            let fb = pow2_or_one(eb - e);
            // The magnitudes compare as the patterns do.
            if ma < mb {
                lemma_magnitudes_in_order(fmt, ma, mb);
                assert(fa == 1);
                assert(sa * 1 == sa);
            } else if mb < ma {
                lemma_magnitudes_in_order(fmt, mb, ma);
                assert(fb == 1);
                assert(sb * 1 == sb);
            } else {
                assert(fa == 1 && fb == 1);
            }
            let u = sa * fa;
            let v = sb * fb;
            assert((ma < mb) == (u < v) && (ma == mb) == (u == v));
            // The signs are put back on both sides.
            let xs = x.signed_significand();
            let ys = y.signed_significand();
            assert(xs * fa == if na {
                -(u as int)
            } else {
                u as int
            }) by (nonlinear_arith)
                requires
                    xs == if na {
                        -(sa as int)
                    } else {
                        sa as int
                    },
                    u == sa * fa,
            ;
            assert(ys * fb == if nb {
                -(v as int)
            } else {
                v as int
            }) by (nonlinear_arith)
                requires
                    ys == if nb {
                        -(sb as int)
                    } else {
                        sb as int
                    },
                    v == sb * fb,
            ;
            assert(ma == 0 <==> u == 0) by {
                lemma_fundamental_div_mod(ma as int, fmt.hidden() as int);
                assert(fa >= 1) by {
                    if ea - e > 0 {
                        lemma_pow2_pos((ea - e) as nat);
                    }
                }
                assert(sa == 0 <==> u == 0) by (nonlinear_arith)
                    requires
                        u == sa * fa,
                        fa >= 1,
                ;
                if ma / fmt.hidden() == 0 {
                    assert(ma == fmt.hidden() * 0 + ma % fmt.hidden());
                } else {
                    assert(ma >= fmt.hidden()) by (nonlinear_arith)
                        requires
                            ma == fmt.hidden() * (ma / fmt.hidden()) + ma % fmt.hidden(),
                            ma / fmt.hidden() >= 1,
                            ma % fmt.hidden() >= 0,
                            fmt.hidden() > 0,
                    ;
                }
            }
            assert(mb == 0 <==> v == 0) by {
                lemma_fundamental_div_mod(mb as int, fmt.hidden() as int);
                assert(fb >= 1) by {
                    if eb - e > 0 {
                        lemma_pow2_pos((eb - e) as nat);
                    }
                }
                assert(sb == 0 <==> v == 0) by (nonlinear_arith)
                    requires
                        v == sb * fb,
                        fb >= 1,
                ;
                if mb / fmt.hidden() == 0 {
                    assert(mb == fmt.hidden() * 0 + mb % fmt.hidden());
                } else {
                    assert(mb >= fmt.hidden()) by (nonlinear_arith)
                        requires
                            mb == fmt.hidden() * (mb / fmt.hidden()) + mb % fmt.hidden(),
                            mb / fmt.hidden() >= 1,
                            mb % fmt.hidden() >= 0,
                            fmt.hidden() > 0,
                    ;
                }
            }
        },
        _ => {},
    }
}

} // verus!
