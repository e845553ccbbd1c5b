//! The executable floating-point kernel: IEEE 754 arithmetic carried out on
//! bit patterns with integer instructions, each operation proved to return
//! the pattern that `ieee` assigns to it.

use crate::ieee::{
    convert, decode, from_nat, nearest_even, product, quotient, ratio_ilog2, round, sum, Format,
    Value,
};
use crate::power::{
    bit_length, ilog2, lemma_ilog2_bounds, lemma_pow2_monotone, pow2_or_one, pow2_u128,
};
use crate::rounding::{
    lemma_pattern_of_finite, lemma_ratio_ilog2_unit, lemma_round_absorbs, lemma_sum_by_magnitude,
};
use vstd::arithmetic::div_mod::{lemma_basic_div, lemma_fundamental_div_mod, lemma_small_mod};
use vstd::arithmetic::power2::{
    lemma2_to64, lemma_pow2_adds, lemma_pow2_pos, lemma_pow2_unfold, pow2,
};
use vstd::prelude::*;

verus! {

impl Format {
    /// Number of significand bits, the implicit leading bit included.
    pub fn precision_bits(self) -> (r: i32)
        ensures
            r == self.precision(),
    {
        match self {
            Format::Single => 24,
            Format::Double => 53,
        }
    }

    /// The weight of the implicit leading bit.
    pub fn hidden_bit(self) -> (r: u64)
        ensures
            r == self.hidden(),
    {
        match self {
            Format::Single => 0x80_0000,
            Format::Double => 0x10_0000_0000_0000,
        }
    }

    /// Exponent of the unit in the last place of the subnormal numbers.
    pub fn least_exp(self) -> (r: i32)
        ensures
            r == self.min_exp(),
    {
        match self {
            Format::Single => -149,
            Format::Double => -1074,
        }
    }

    /// The pattern of positive infinity.
    pub fn infinity_bits(self) -> (r: u64)
        ensures
            r == self.infinity(),
    {
        match self {
            Format::Single => 0x7f80_0000,
            Format::Double => 0x7ff0_0000_0000_0000,
        }
    }

    /// The weight of the sign bit.
    pub fn sign_mask(self) -> (r: u64)
        ensures
            r == self.sign_bit(),
    {
        match self {
            Format::Single => 0x8000_0000,
            Format::Double => 0x8000_0000_0000_0000,
        }
    }

    /// The NaN that operations produce.
    pub fn nan_bits(self) -> (r: u64)
        ensures
            r == self.nan(),
    {
        match self {
            Format::Single => 0x7fc0_0000,
            Format::Double => 0x7ff8_0000_0000_0000,
        }
    }

    /// The pattern of a zero of the given sign.
    pub fn zero_bits(self, negative: bool) -> (r: u64)
        ensures
            r == self.zero(negative),
    {
        if negative {
            self.sign_mask()
        } else {
            0
        }
    }

    /// The pattern of an infinity of the given sign.
    pub fn signed_infinity_bits(self, negative: bool) -> (r: u64)
        ensures
            r == self.signed_infinity(negative),
    {
        self.zero_bits(negative) + self.infinity_bits()
    }

    /// Whether `bits` is a pattern of this format: below `2^32` for
    /// `Single`, any `u64` for `Double`.
    pub open spec fn holds(self, bits: u64) -> bool {
        bits < 2 * self.sign_bit()
    }
}

/// The class of an unpacked pattern.
#[derive(Clone, Copy, Debug)]
pub enum Class {
    /// Not a number.
    Nan,
    /// An infinity.
    Infinite,
    /// Zero, subnormal or normal.
    Finite,
}

/// A pattern taken apart: the executable counterpart of `Value`.
#[derive(Clone, Copy, Debug)]
pub struct Unpacked {
    pub class: Class,
    pub negative: bool,
    pub sig: u64,
    pub exp: i32,
}

impl Unpacked {
    /// The value that the parts denote.
    pub open spec fn value(self) -> Value {
        match self.class {
            Class::Nan => Value::Nan,
            Class::Infinite => Value::Infinite { negative: self.negative },
            Class::Finite => Value::Finite {
                negative: self.negative,
                significand: self.sig as nat,
                exponent: self.exp as int,
            },
        }
    }

    /// Bounds that every unpacked pattern of `fmt` meets: a significand of
    /// at most `precision` bits, normalised unless the exponent is the
    /// least one, and an exponent within the format's range.
    pub open spec fn within(self, fmt: Format) -> bool {
        self.class is Finite ==> {
            &&& self.sig < 2 * fmt.hidden()
            &&& fmt.min_exp() <= self.exp <= fmt.min_exp() + 2046
            &&& self.exp > fmt.min_exp() ==> self.sig >= fmt.hidden()
        }
    }
}

/// Takes a pattern apart.
pub fn unpack(fmt: Format, bits: u64) -> (u: Unpacked)
    requires
        fmt.holds(bits),
    ensures
        u.value() == decode(fmt, bits as nat),
        u.within(fmt),
{
    let sign: u64 = fmt.sign_mask();
    let negative = bits >= sign;
    let magnitude: u64 = if negative {
        bits - sign
    } else {
        bits
    };
    let infinity: u64 = fmt.infinity_bits();
    if magnitude > infinity {
        Unpacked { class: Class::Nan, negative, sig: 0, exp: 0 }
    } else if magnitude == infinity {
        Unpacked { class: Class::Infinite, negative, sig: 0, exp: 0 }
    } else {
        let hidden: u64 = fmt.hidden_bit();
        let biased: u64 = magnitude / hidden;
        let fraction: u64 = magnitude % hidden;
        proof {
            match fmt {
                Format::Single => {
                    assert(biased < 255 && fraction < 0x80_0000);
                },
                Format::Double => {
                    assert(biased < 2047 && fraction < 0x10_0000_0000_0000);
                },
            }
        }
        if biased == 0 {
            Unpacked { class: Class::Finite, negative, sig: fraction, exp: fmt.least_exp() }
        } else {
            Unpacked {
                class: Class::Finite,
                negative,
                sig: hidden + fraction,
                exp: fmt.least_exp() + (biased as i32) - 1,
            }
        }
    }
}

/// `n / 2^t` rounded to the nearest integer, ties to even.
fn shift_right_rounded(n: u128, t: i32) -> (count: u128)
    requires
        t >= 1,
    ensures
        count == nearest_even(n as nat, pow2(t as nat)),
        count <= 0x8000_0000_0000_0000_0000_0000_0000_0000,
{
    if t >= 129 {
        proof {
            let d = pow2(t as nat);
            lemma_pow2_monotone(129, t as nat);
            lemma_pow2_unfold(129);
            lemma_pow2_adds(64, 64);
            lemma2_to64();
            lemma_basic_div(n as int, d as int);
            lemma_small_mod(n as nat, d);
        }
        0
    } else if t == 128 {
        let half: u128 = pow2_u128(127);
        proof {
            let d = pow2(128);
            lemma_pow2_unfold(128);
            lemma_pow2_adds(64, 64);
            lemma2_to64();
            lemma_basic_div(n as int, d as int);
            lemma_small_mod(n as nat, d);
        }
        if n > half {
            1
        } else {
            0
        }
    } else {
        let d: u128 = pow2_u128(t as u32);
        proof {
            lemma_pow2_pos(t as nat);
            lemma_pow2_unfold(t as nat);
            lemma_fundamental_div_mod(n as int, d as int);
        }
        let quot: u128 = n / d;
        let rem: u128 = n % d;
        let half: u128 = d / 2;
        let up = rem > half || (rem == half && quot % 2 == 1);
        proof {
            assert(quot <= n / 2) by (nonlinear_arith)
                requires
                    n as int == d * (n as int / d as int) + (n as int % d as int),
                    quot as int == n as int / d as int,
                    0 <= n as int % d as int,
                    d >= 2,
            ;
        }
        if up {
            quot + 1
        } else {
            quot
        }
    }
}

/// Rounds `(-1)^negative * n * 2^e` to `fmt`.
pub fn round_int(fmt: Format, negative: bool, n: u128, e: i32) -> (r: u64)
    requires
        -4096 <= e <= 4096,
    ensures
        r == round(fmt, negative, n as nat, 1, e as int),
        fmt.holds(r),
{
    if n == 0 {
        return fmt.zero_bits(negative);
    }
    let log: i32 = (bit_length(n) - 1) as i32;
    let ideal: i32 = e + log - (fmt.precision_bits() - 1);
    let least: i32 = fmt.least_exp();
    let q: i32 = if ideal < least {
        least
    } else {
        ideal
    };
    proof {
        lemma_ratio_ilog2_unit(n as nat);
        lemma_ilog2_bounds(n as nat);
        lemma_pow2_landmarks();
        assert(n as nat * 1 == n as nat);
    }
    let count: u128;
    if q <= e {
        let s: u32 = (e - q) as u32;
        proof {
            lemma_scaled_below(n as nat, (log + 1) as nat, s as nat, 64);
            let scaled = n as nat * pow2(s as nat);
            assert(pow2_or_one(e - q) == pow2(s as nat));
            assert(pow2_or_one(q - e) == 1);
            assert(scaled / 1 == scaled);
            assert(scaled % 1 == 0);
        }
        count = n * pow2_u128(s);
    } else {
        proof {
            assert(pow2_or_one(e - q) == 1);
            assert(pow2_or_one(q - e) == pow2((q - e) as nat));
            assert(1 * pow2((q - e) as nat) == pow2((q - e) as nat));
        }
        count = shift_right_rounded(n, q - e);
    }
    pack(fmt, negative, q, count)
}

/// `n / d` rounded to the nearest integer, ties to even.
fn nearest_even_quotient(n: u128, d: u128) -> (count: u128)
    requires
        0 < d < 0x4000_0000_0000_0000_0000_0000_0000_0000,
        n < 0x4000_0000_0000_0000_0000_0000_0000_0000,
    ensures
        count == nearest_even(n as nat, d as nat),
{
    let quot: u128 = n / d;
    let rem: u128 = n % d;
    let up = 2 * rem > d || (2 * rem == d && quot % 2 == 1);
    proof {
        lemma_fundamental_div_mod(n as int, d as int);
        assert(quot <= n) by (nonlinear_arith)
            requires
                n as int == d * (n as int / d as int) + (n as int % d as int),
                quot as int == n as int / d as int,
                0 <= n as int % d as int,
                d >= 1,
        ;
    }
    if up {
        quot + 1
    } else {
        quot
    }
}

/// The powers of two that bound the kernel's intermediate values.
proof fn lemma_pow2_landmarks()
    ensures
        pow2(0) == 1,
        pow2(52) == 0x10_0000_0000_0000,
        pow2(53) == 0x20_0000_0000_0000,
        pow2(63) == 0x8000_0000_0000_0000,
        pow2(64) == 0x1_0000_0000_0000_0000,
        pow2(107) == 0x800_0000_0000_0000_0000_0000_0000,
        pow2(116) == 0x10_0000_0000_0000_0000_0000_0000_0000,
        pow2(126) == 0x4000_0000_0000_0000_0000_0000_0000_0000,
{
    lemma2_to64();
    lemma_pow2_adds(32, 20);
    lemma_pow2_adds(32, 21);
    lemma_pow2_adds(32, 31);
    lemma_pow2_adds(64, 32);
    lemma_pow2_adds(96, 11);
    lemma_pow2_adds(96, 20);
    lemma_pow2_adds(96, 30);
}

/// A number below `2^a`, scaled up by `s` places, stays below `2^b` when
/// `a + s <= b`.
proof fn lemma_scaled_below(n: nat, a: nat, s: nat, b: nat)
    requires
        n < pow2(a),
        a + s <= b,
    ensures
        n * pow2(s) < pow2(b),
{
    lemma_pow2_adds(a, s);
    lemma_pow2_monotone(a + s, b);
    lemma_pow2_pos(s);
    assert(n * pow2(s) < pow2(a) * pow2(s)) by (nonlinear_arith)
        requires
            n < pow2(a),
            pow2(s) > 0,
    ;
}

/// Floor of the binary logarithm of `num / den`.
fn ratio_log(num: u64, den: u64) -> (log: i32)
    requires
        0 < num < 0x20_0000_0000_0000,
        0 < den < 0x20_0000_0000_0000,
    ensures
        log == ratio_ilog2(num as nat, den as nat),
        log == ilog2(num as nat) - ilog2(den as nat) || log == ilog2(num as nat) - ilog2(
            den as nat,
        ) - 1,
        ilog2(num as nat) <= 52,
        ilog2(den as nat) <= 52,
{
    let log_num: i32 = (bit_length(num as u128) - 1) as i32;
    let log_den: i32 = (bit_length(den as u128) - 1) as i32;
    let diff: i32 = log_num - log_den;
    proof {
        lemma_ilog2_bounds(num as nat);
        lemma_ilog2_bounds(den as nat);
        lemma_pow2_landmarks();
        if log_num >= 53 {
            lemma_pow2_monotone(53, log_num as nat);
        }
        if log_den >= 53 {
            lemma_pow2_monotone(53, log_den as nat);
        }
        assert(0 <= log_num <= 52 && 0 <= log_den <= 52);
        assert(num as nat * 1 == num as nat);
        assert(den as nat * 1 == den as nat);
    }
    let reaches: bool = if diff >= 0 {
        proof {
            lemma_scaled_below(den as nat, 53, diff as nat, 107);
        }
        (num as u128) >= (den as u128) * pow2_u128(diff as u32)
    } else {
        proof {
            lemma_scaled_below(num as nat, 53, (-diff) as nat, 107);
        }
        (num as u128) * pow2_u128((-diff) as u32) >= (den as u128)
    };
    if reaches {
        diff
    } else {
        diff - 1
    }
}

/// Puts a rounded count of units of `2^q` and the sign into a pattern.
fn pack(fmt: Format, negative: bool, q: i32, count: u128) -> (r: u64)
    requires
        fmt.min_exp() <= q <= 8192,
        count <= 0x8000_0000_0000_0000_0000_0000_0000_0000,
    ensures
        r == fmt.zero(negative) + ({
            let magnitude = (q - fmt.min_exp()) * fmt.hidden() + count;
            if magnitude >= fmt.infinity() {
                fmt.infinity() as int
            } else {
                magnitude
            }
        }),
        fmt.holds(r),
{
    let sign: u64 = fmt.zero_bits(negative);
    let infinity: u64 = fmt.infinity_bits();
    let steps: i32 = q - fmt.least_exp();
    if steps >= 2047 {
        return sign + infinity;
    }
    let magnitude: u128 = (steps as u128) * (fmt.hidden_bit() as u128) + count;
    if magnitude >= infinity as u128 {
        sign + infinity
    } else {
        sign + (magnitude as u64)
    }
}

/// Rounds `(-1)^negative * num / den * 2^e` to `fmt`, for significands of at
/// most 53 bits.
pub fn round_ratio(fmt: Format, negative: bool, num: u64, den: u64, e: i32) -> (r: u64)
    requires
        num < 0x20_0000_0000_0000,
        0 < den < 0x20_0000_0000_0000,
        -4096 <= e <= 4096,
    ensures
        r == round(fmt, negative, num as nat, den as nat, e as int),
        fmt.holds(r),
{
    if num == 0 {
        return fmt.zero_bits(negative);
    }
    let log: i32 = ratio_log(num, den);
    let ideal: i32 = e + log - (fmt.precision_bits() - 1);
    let least: i32 = fmt.least_exp();
    let q: i32 = if ideal < least {
        least
    } else {
        ideal
    };
    proof {
        lemma_pow2_landmarks();
        lemma_ilog2_bounds(num as nat);
    }
    let count: u128;
    if q <= e {
        let s: u32 = (e - q) as u32;
        proof {
            lemma_scaled_below(num as nat, ilog2(num as nat) + 1, s as nat, 107);
            assert(pow2_or_one(e - q) == pow2(s as nat));
            assert(pow2_or_one(q - e) == 1);
            assert(den as nat * 1 == den as nat);
        }
        count = nearest_even_quotient((num as u128) * pow2_u128(s), den as u128);
    } else {
        let t: i32 = q - e;
        proof {
            assert(pow2_or_one(e - q) == 1);
            assert(pow2_or_one(q - e) == pow2(t as nat));
            assert(num as nat * 1 == num as nat);
            lemma_pow2_pos(t as nat);
        }
        if t >= 64 {
            count = 0;
            proof {
                let d = den as nat * pow2(t as nat);
                lemma_pow2_monotone(64, t as nat);
                assert(d >= pow2(64)) by (nonlinear_arith)
                    requires
                        d == den as nat * pow2(t as nat),
                        den >= 1,
                        pow2(t as nat) >= pow2(64),
                ;
                lemma_basic_div(num as int, d as int);
                lemma_small_mod(num as nat, d);
                assert(nearest_even(num as nat, d) == 0);
            }
        } else {
            proof {
                lemma_scaled_below(den as nat, 53, t as nat, 116);
                assert(den * pow2(t as nat) > 0) by (nonlinear_arith)
                    requires
                        den > 0,
                        pow2(t as nat) > 0,
                ;
            }
            count = nearest_even_quotient(num as u128, (den as u128) * pow2_u128(t as u32));
        }
    }
    proof {
        assert(count <= pow2(107)) by {
            let n = num as nat * pow2_or_one(e - q);
            let d = den as nat * pow2_or_one(q - e);
            if count != 0 {
                lemma_fundamental_div_mod(n as int, d as int);
                assert(n / d <= n) by (nonlinear_arith)
                    requires
                        n as int == d * (n as int / d as int) + (n as int % d as int),
                        0 <= n as int % d as int,
                        d >= 1,
                ;
            }
        }
    }
    pack(fmt, negative, q, count)
}

/// The pattern of `n` in `fmt`, rounded.
pub fn from_u64(fmt: Format, n: u64) -> (r: u64)
    ensures
        r == from_nat(fmt, n as nat),
        fmt.holds(r),
{
    round_int(fmt, false, n as u128, 0)
}

/// Rounds an unpacked value of any format to `fmt`.
pub fn pack_rounded(fmt: Format, u: Unpacked) -> (r: u64)
    requires
        u.class is Finite ==> -4096 <= u.exp <= 4096,
    ensures
        r == convert(fmt, u.value()),
        fmt.holds(r),
{
    match u.class {
        Class::Nan => fmt.nan_bits(),
        Class::Infinite => fmt.signed_infinity_bits(u.negative),
        Class::Finite => round_int(fmt, u.negative, u.sig as u128, u.exp),
    }
}

/// The pattern of the product of two unpacked values.
pub fn multiply(fmt: Format, a: Unpacked, b: Unpacked) -> (r: u64)
    requires
        a.within(fmt),
        b.within(fmt),
    ensures
        r == product(fmt, a.value(), b.value()),
        fmt.holds(r),
{
    let negative = a.negative != b.negative;
    match (a.class, b.class) {
        (Class::Nan, _) => fmt.nan_bits(),
        (_, Class::Nan) => fmt.nan_bits(),
        (Class::Infinite, Class::Infinite) => fmt.signed_infinity_bits(negative),
        (Class::Infinite, Class::Finite) => {
            if b.sig == 0 {
                fmt.nan_bits()
            } else {
                fmt.signed_infinity_bits(negative)
            }
        },
        (Class::Finite, Class::Infinite) => {
            if a.sig == 0 {
                fmt.nan_bits()
            } else {
                fmt.signed_infinity_bits(negative)
            }
        },
        (Class::Finite, Class::Finite) => {
            proof {
                assert((a.sig as nat) * (b.sig as nat) < 0x20_0000_0000_0000 * 0x20_0000_0000_0000)
                    by (nonlinear_arith)
                    requires
                        a.sig < 0x20_0000_0000_0000,
                        b.sig < 0x20_0000_0000_0000,
                ;
            }
            round_int(fmt, negative, (a.sig as u128) * (b.sig as u128), a.exp + b.exp)
        },
    }
}

/// The pattern of the quotient of two unpacked values.
pub fn divide(fmt: Format, a: Unpacked, b: Unpacked) -> (r: u64)
    requires
        a.within(fmt),
        b.within(fmt),
    ensures
        r == quotient(fmt, a.value(), b.value()),
        fmt.holds(r),
{
    let negative = a.negative != b.negative;
    match (a.class, b.class) {
        (Class::Nan, _) => fmt.nan_bits(),
        (_, Class::Nan) => fmt.nan_bits(),
        (Class::Infinite, Class::Infinite) => fmt.nan_bits(),
        (Class::Infinite, Class::Finite) => fmt.signed_infinity_bits(negative),
        (Class::Finite, Class::Infinite) => fmt.zero_bits(negative),
        (Class::Finite, Class::Finite) => {
            if b.sig == 0 {
                if a.sig == 0 {
                    fmt.nan_bits()
                } else {
                    fmt.signed_infinity_bits(negative)
                }
            } else {
                round_ratio(fmt, negative, a.sig, b.sig, a.exp - b.exp)
            }
        },
    }
}

/// The sum of two finite values, the first with the larger exponent.
///
/// Where the exponents are more than 64 apart, the operand with the smaller
/// one cannot reach the other's last place, and the result is the other
/// operand as it stands.
fn add_ordered(fmt: Format, hi: Unpacked, hi_bits: u64, lo: Unpacked) -> (r: u64)
    requires
        fmt.holds(hi_bits),
        hi.value() == decode(fmt, hi_bits as nat),
        hi.class is Finite,
        lo.class is Finite,
        hi.within(fmt),
        lo.within(fmt),
        hi.exp >= lo.exp,
    ensures
        r == sum(fmt, hi.value(), lo.value()),
        fmt.holds(r),
{
    let gap: i32 = hi.exp - lo.exp;
    proof {
        lemma_pow2_landmarks();
        lemma_sum_by_magnitude(
            fmt,
            hi.negative,
            hi.sig as nat,
            hi.exp as int,
            lo.negative,
            lo.sig as nat,
            lo.exp as int,
        );
    }
    if gap > 64 {
        proof {
            lemma_pattern_of_finite(fmt, hi_bits as nat);
            lemma_round_absorbs(
                fmt,
                hi.negative,
                hi.sig as nat,
                hi.exp as int,
                gap as nat,
                lo.sig as nat,
                hi.negative != lo.negative,
            );
        }
        return hi_bits;
    }
    proof {
        if gap > 0 {
            lemma_scaled_below(hi.sig as nat, 53, gap as nat, 117);
        } else {
            assert(hi.sig as nat * 1 == hi.sig as nat);
        }
        lemma_pow2_adds(64, 53);
        lemma_pow2_adds(32, 21);
        lemma2_to64();
    }
    let big: u128 = if gap > 0 {
        (hi.sig as u128) * pow2_u128(gap as u32)
    } else {
        hi.sig as u128
    };
    let small: u128 = lo.sig as u128;
    if hi.negative == lo.negative {
        round_int(fmt, hi.negative, big + small, lo.exp)
    } else if big > small {
        round_int(fmt, hi.negative, big - small, lo.exp)
    } else if big < small {
        round_int(fmt, lo.negative, small - big, lo.exp)
    } else {
        fmt.zero_bits(false)
    }
}

/// The pattern of the sum of two patterns.
pub fn add_bits(fmt: Format, a_bits: u64, b_bits: u64) -> (r: u64)
    requires
        fmt.holds(a_bits),
        fmt.holds(b_bits),
    ensures
        r == sum(fmt, decode(fmt, a_bits as nat), decode(fmt, b_bits as nat)),
        fmt.holds(r),
{
    let a = unpack(fmt, a_bits);
    let b = unpack(fmt, b_bits);
    match (a.class, b.class) {
        (Class::Nan, _) => fmt.nan_bits(),
        (_, Class::Nan) => fmt.nan_bits(),
        (Class::Infinite, Class::Infinite) => {
            if a.negative == b.negative {
                fmt.signed_infinity_bits(a.negative)
            } else {
                fmt.nan_bits()
            }
        },
        (Class::Infinite, Class::Finite) => fmt.signed_infinity_bits(a.negative),
        (Class::Finite, Class::Infinite) => fmt.signed_infinity_bits(b.negative),
        (Class::Finite, Class::Finite) => {
            if a.exp >= b.exp {
                add_ordered(fmt, a, a_bits, b)
            } else {
                let r = add_ordered(fmt, b, b_bits, a);
                proof {
                    lemma_sum_by_magnitude(
                        fmt,
                        b.negative,
                        b.sig as nat,
                        b.exp as int,
                        a.negative,
                        a.sig as nat,
                        a.exp as int,
                    );
                }
                r
            }
        },
    }
}

/// A pattern with its sign bit flipped.
pub fn negate(fmt: Format, bits: u64) -> (r: u64)
    requires
        fmt.holds(bits),
    ensures
        decode(fmt, r as nat) == decode(fmt, bits as nat).negated(),
        fmt.holds(r),
{
    let sign: u64 = fmt.sign_mask();
    if bits >= sign {
        bits - sign
    } else {
        bits + sign
    }
}

} // verus!
