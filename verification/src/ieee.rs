//! The IEEE 754 binary interchange formats as mathematics: what a bit pattern
//! denotes, and which bit pattern a real number rounds to.
//!
//! Nothing here is executable. A finite value is a sign, a natural
//! significand and an integer exponent, standing for
//! `(-1)^sign * significand * 2^exponent`; rounding is to nearest, ties to
//! even, the only mode the digest uses.

use crate::power::{ilog2, pow2_or_one};
use vstd::prelude::*;

verus! {

/// The two formats that the digest computes in.
#[derive(Clone, Copy, Debug)]
pub enum Format {
    /// binary32: 24 bits of precision, 8 exponent bits.
    Single,
    /// binary64: 53 bits of precision, 11 exponent bits.
    Double,
}

impl Format {
    /// Number of significand bits, the implicit leading bit included.
    pub open spec fn precision(self) -> int {
        match self {
            Format::Single => 24,
            Format::Double => 53,
        }
    }

    /// `2^(precision - 1)`: the weight of the implicit leading bit, and the
    /// step of the encoding from one exponent to the next.
    pub open spec fn hidden(self) -> nat {
        match self {
            Format::Single => 0x80_0000,
            Format::Double => 0x10_0000_0000_0000,
        }
    }

    /// Exponent of the unit in the last place of the subnormal numbers: the
    /// smallest positive value of the format is `2^min_exp`.
    pub open spec fn min_exp(self) -> int {
        match self {
            Format::Single => -149,
            Format::Double => -1074,
        }
    }

    /// The pattern of positive infinity. Magnitudes below it are finite,
    /// magnitudes above it are NaNs.
    pub open spec fn infinity(self) -> nat {
        match self {
            Format::Single => 0x7f80_0000,
            Format::Double => 0x7ff0_0000_0000_0000,
        }
    }

    /// The weight of the sign bit.
    pub open spec fn sign_bit(self) -> nat {
        match self {
            Format::Single => 0x8000_0000,
            Format::Double => 0x8000_0000_0000_0000,
        }
    }

    /// The one NaN that operations of this library produce: quiet, positive,
    /// with an empty payload.
    pub open spec fn nan(self) -> nat {
        match self {
            Format::Single => 0x7fc0_0000,
            Format::Double => 0x7ff8_0000_0000_0000,
        }
    }

    /// The pattern of a zero of the given sign.
    pub open spec fn zero(self, negative: bool) -> nat {
        if negative {
            self.sign_bit()
        } else {
            0
        }
    }

    /// The pattern of an infinity of the given sign.
    pub open spec fn signed_infinity(self, negative: bool) -> nat {
        self.zero(negative) + self.infinity()
    }
}

/// What a bit pattern denotes.
pub enum Value {
    /// Not a number.
    Nan,
    /// An infinity.
    Infinite { negative: bool },
    /// `(-1)^negative * significand * 2^exponent`. Zero keeps its sign.
    Finite { negative: bool, significand: nat, exponent: int },
}

impl Value {
    /// The same value with the opposite sign. A NaN stays a NaN.
    pub open spec fn negated(self) -> Value {
        match self {
            Value::Nan => Value::Nan,
            Value::Infinite { negative } => Value::Infinite { negative: !negative },
            Value::Finite { negative, significand, exponent } => Value::Finite {
                negative: !negative,
                significand,
                exponent,
            },
        }
    }

    /// The significand with its sign, for a finite value.
    pub open spec fn signed_significand(self) -> int {
        match self {
            Value::Finite { negative, significand, .. } => if negative {
                -(significand as int)
            } else {
                significand as int
            },
            _ => 0,
        }
    }
}

/// The sign of a pattern: whether its top bit is set.
pub open spec fn sign_of(fmt: Format, bits: nat) -> bool {
    bits >= fmt.sign_bit()
}

/// A pattern without its sign bit.
pub open spec fn magnitude_of(fmt: Format, bits: nat) -> nat {
    if bits >= fmt.sign_bit() {
        (bits - fmt.sign_bit()) as nat
    } else {
        bits
    }
}

/// The value that `bits` denotes in `fmt`.
///
/// With `b` the biased exponent field and `f` the fraction field, a pattern
/// with `b == 0` is subnormal, `f * 2^min_exp`, and one with `b > 0` below
/// infinity is normal, `(hidden + f) * 2^(min_exp + b - 1)`.
pub open spec fn decode(fmt: Format, bits: nat) -> Value {
    let negative = sign_of(fmt, bits);
    let magnitude = magnitude_of(fmt, bits);
    if magnitude > fmt.infinity() {
        Value::Nan
    } else if magnitude == fmt.infinity() {
        Value::Infinite { negative }
    } else {
        let biased = magnitude / fmt.hidden();
        let fraction = magnitude % fmt.hidden();
        if biased == 0 {
            Value::Finite { negative, significand: fraction, exponent: fmt.min_exp() }
        } else {
            Value::Finite {
                negative,
                significand: fmt.hidden() + fraction,
                exponent: fmt.min_exp() + biased - 1,
            }
        }
    }
}

/// Floor of the binary logarithm of the positive ratio `num / den`.
///
/// The difference of the two integer logarithms is either that floor or one
/// above it; comparing the operands, brought to the same scale, decides.
pub open spec fn ratio_ilog2(num: nat, den: nat) -> int {
    let d = ilog2(num) as int - ilog2(den) as int;
    if num * pow2_or_one(-d) >= den * pow2_or_one(d) {
        d
    } else {
        d - 1
    }
}

/// `n / d` rounded to the nearest integer, a tie going to the even one.
pub open spec fn nearest_even(n: nat, d: nat) -> nat {
    let q = n / d;
    let r = n % d;
    if 2 * r > d || (2 * r == d && q % 2 == 1) {
        q + 1
    } else {
        q
    }
}

/// The exponent of the unit in the last place of the result when the positive
/// real `num / den * 2^exp` is rounded to `fmt`: `precision - 1` below the
/// real's own binary exponent, but never below `min_exp`.
pub open spec fn quantum_exp(fmt: Format, num: nat, den: nat, exp: int) -> int {
    let ideal = exp + ratio_ilog2(num, den) - (fmt.precision() - 1);
    if ideal < fmt.min_exp() {
        fmt.min_exp()
    } else {
        ideal
    }
}

/// The magnitude pattern that the positive real `num / den * 2^exp` rounds to.
///
/// The real is counted in units of `2^q` with `q` its quantum exponent, the
/// count is rounded to nearest-even, and the pattern is
/// `(q - min_exp) * hidden + count`: for a subnormal result the count is the
/// fraction, for a normal one its leading bit adds one to the exponent
/// field, and a count that rounds up to `2^precision` carries into the next
/// exponent. A pattern at or above infinity is infinity.
pub open spec fn round_magnitude(fmt: Format, num: nat, den: nat, exp: int) -> nat {
    let q = quantum_exp(fmt, num, den, exp);
    let n = num * pow2_or_one(exp - q);
    let d = den * pow2_or_one(q - exp);
    let magnitude = (q - fmt.min_exp()) * fmt.hidden() + nearest_even(n, d);
    if magnitude >= fmt.infinity() {
        fmt.infinity()
    } else {
        magnitude as nat
    }
}

/// The pattern that the real `(-1)^negative * num / den * 2^exp` rounds to,
/// for `den > 0`. A zero keeps the sign it is given.
pub open spec fn round(fmt: Format, negative: bool, num: nat, den: nat, exp: int) -> nat {
    if num == 0 {
        fmt.zero(negative)
    } else {
        fmt.zero(negative) + round_magnitude(fmt, num, den, exp)
    }
}

/// The pattern of `a + b`.
///
/// Infinities of opposite sign give NaN. The sum of two finite values is
/// formed exactly, over the smaller of the two exponents, and rounded once.
/// An exact zero is negative only when both operands are negative.
pub open spec fn sum(fmt: Format, a: Value, b: Value) -> nat {
    match (a, b) {
        (Value::Nan, _) => fmt.nan(),
        (_, Value::Nan) => fmt.nan(),
        (Value::Infinite { negative: na }, Value::Infinite { negative: nb }) => if na == nb {
            fmt.signed_infinity(na)
        } else {
            fmt.nan()
        },
        (Value::Infinite { negative }, _) => fmt.signed_infinity(negative),
        (_, Value::Infinite { negative }) => fmt.signed_infinity(negative),
        (
            Value::Finite { negative: na, exponent: ea, .. },
            Value::Finite { negative: nb, exponent: eb, .. },
        ) => {
            let e = if ea <= eb {
                ea
            } else {
                eb
            };
            let s = a.signed_significand() * pow2_or_one(ea - e) + b.signed_significand()
                * pow2_or_one(eb - e);
            if s == 0 {
                fmt.zero(na && nb)
            } else if s < 0 {
                round(fmt, true, (-s) as nat, 1, e)
            } else {
                round(fmt, false, s as nat, 1, e)
            }
        },
    }
}

/// The pattern of `a - b`, which is `a + (-b)`.
pub open spec fn difference(fmt: Format, a: Value, b: Value) -> nat {
    sum(fmt, a, b.negated())
}

/// The pattern of `a * b`.
///
/// Zero times infinity is NaN. The sign of any other result is the
/// exclusive-or of the operands' signs.
pub open spec fn product(fmt: Format, a: Value, b: Value) -> nat {
    match (a, b) {
        (Value::Nan, _) => fmt.nan(),
        (_, Value::Nan) => fmt.nan(),
        (Value::Infinite { negative: na }, Value::Infinite { negative: nb }) => {
            fmt.signed_infinity(na != nb)
        },
        (Value::Infinite { negative: na }, Value::Finite { negative: nb, significand, .. }) => {
            if significand == 0 {
                fmt.nan()
            } else {
                fmt.signed_infinity(na != nb)
            }
        },
        (Value::Finite { negative: na, significand, .. }, Value::Infinite { negative: nb }) => {
            if significand == 0 {
                fmt.nan()
            } else {
                fmt.signed_infinity(na != nb)
            }
        },
        (
            Value::Finite { negative: na, significand: ma, exponent: ea },
            Value::Finite { negative: nb, significand: mb, exponent: eb },
        ) => round(fmt, na != nb, ma * mb, 1, ea + eb),
    }
}

/// The pattern of `a / b`.
///
/// Zero by zero and infinity by infinity are NaN; a non-zero value by zero
/// is an infinity. The sign of any other result is the exclusive-or of the
/// operands' signs.
pub open spec fn quotient(fmt: Format, a: Value, b: Value) -> nat {
    match (a, b) {
        (Value::Nan, _) => fmt.nan(),
        (_, Value::Nan) => fmt.nan(),
        (Value::Infinite { .. }, Value::Infinite { .. }) => fmt.nan(),
        (Value::Infinite { negative: na }, Value::Finite { negative: nb, .. }) => {
            fmt.signed_infinity(na != nb)
        },
        (Value::Finite { negative: na, .. }, Value::Infinite { negative: nb }) => {
            fmt.zero(na != nb)
        },
        (
            Value::Finite { negative: na, significand: ma, exponent: ea },
            Value::Finite { negative: nb, significand: mb, exponent: eb },
        ) => {
            if mb == 0 {
                if ma == 0 {
                    fmt.nan()
                } else {
                    fmt.signed_infinity(na != nb)
                }
            } else {
                round(fmt, na != nb, ma, mb, ea - eb)
            }
        },
    }
}

/// The pattern in `fmt` of a value of any format: the value rounded to
/// `fmt`. Every NaN becomes the one NaN of `fmt`.
pub open spec fn convert(fmt: Format, v: Value) -> nat {
    match v {
        Value::Nan => fmt.nan(),
        Value::Infinite { negative } => fmt.signed_infinity(negative),
        Value::Finite { negative, significand, exponent } => round(
            fmt,
            negative,
            significand,
            1,
            exponent,
        ),
    }
}

/// The pattern in `fmt` of the natural number `n`, rounded.
pub open spec fn from_nat(fmt: Format, n: nat) -> nat {
    round(fmt, false, n, 1, 0)
}

/// Whether the pattern is a NaN.
pub open spec fn is_nan(fmt: Format, bits: nat) -> bool {
    magnitude_of(fmt, bits) > fmt.infinity()
}

/// Whether the pattern is an infinity of either sign.
pub open spec fn is_infinite(fmt: Format, bits: nat) -> bool {
    magnitude_of(fmt, bits) == fmt.infinity()
}

/// The place of a pattern that is no NaN on the number line: its magnitude,
/// negated where the sign bit is set. The encoding orders magnitudes as it
/// orders the values they denote, so one value is below another exactly when
/// its ordinal is; the two zeros share ordinal zero.
pub open spec fn ordinal(fmt: Format, bits: nat) -> int {
    if sign_of(fmt, bits) {
        -(magnitude_of(fmt, bits) as int)
    } else {
        magnitude_of(fmt, bits) as int
    }
}

/// `a < b` as numbers: false where either is a NaN.
pub open spec fn less(fmt: Format, a: nat, b: nat) -> bool {
    !is_nan(fmt, a) && !is_nan(fmt, b) && ordinal(fmt, a) < ordinal(fmt, b)
}

/// `a == b` as numbers: false where either is a NaN, true of the two zeros.
pub open spec fn equal(fmt: Format, a: nat, b: nat) -> bool {
    !is_nan(fmt, a) && !is_nan(fmt, b) && ordinal(fmt, a) == ordinal(fmt, b)
}

/// `a <= b` as numbers: false where either is a NaN.
pub open spec fn less_or_equal(fmt: Format, a: nat, b: nat) -> bool {
    !is_nan(fmt, a) && !is_nan(fmt, b) && ordinal(fmt, a) <= ordinal(fmt, b)
}

} // verus!
