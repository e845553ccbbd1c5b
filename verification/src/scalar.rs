//! The two scalar types of the digest: IEEE 754 binary32 and binary64 values
//! held as their bit patterns, with correctly rounded arithmetic.

use crate::ieee::{
    convert, decode, difference, equal, from_nat, is_infinite, is_nan, less, less_or_equal,
    product, quotient, sum, Format,
};
use crate::soft::{add_bits, divide, from_u64, multiply, negate, pack_rounded, unpack};
use vstd::prelude::*;

verus! {

/// A binary64 value, held as its bit pattern.
#[derive(Clone, Copy, Debug)]
pub struct F64 {
    pub bits: u64,
}

/// A binary32 value, held as its bit pattern.
#[derive(Clone, Copy, Debug)]
pub struct F32 {
    pub bits: u32,
}

impl F64 {
    /// The value `0.5`.
    pub open spec fn spec_half() -> F64 {
        F64 { bits: 0x3fe0_0000_0000_0000 }
    }

    /// The value `1.0`.
    pub open spec fn spec_one() -> F64 {
        F64 { bits: 0x3ff0_0000_0000_0000 }
    }

    /// The value `4.0`.
    pub open spec fn spec_four() -> F64 {
        F64 { bits: 0x4010_0000_0000_0000 }
    }

    /// The value `0.0`.
    pub open spec fn spec_zero() -> F64 {
        F64 { bits: 0 }
    }

    /// The value `0.5`.
    #[verifier::when_used_as_spec(spec_half)]
    pub fn half() -> (r: F64)
        ensures
            r == F64::spec_half(),
    {
        F64 { bits: 0x3fe0_0000_0000_0000 }
    }

    /// The value `1.0`.
    #[verifier::when_used_as_spec(spec_one)]
    pub fn one() -> (r: F64)
        ensures
            r == F64::spec_one(),
    {
        F64 { bits: 0x3ff0_0000_0000_0000 }
    }

    /// The value `4.0`.
    #[verifier::when_used_as_spec(spec_four)]
    pub fn four() -> (r: F64)
        ensures
            r == F64::spec_four(),
    {
        F64 { bits: 0x4010_0000_0000_0000 }
    }

    /// The value `0.0`.
    #[verifier::when_used_as_spec(spec_zero)]
    pub fn zero() -> (r: F64)
        ensures
            r == F64::spec_zero(),
    {
        F64 { bits: 0 }
    }

    /// The value with the given bit pattern.
    pub fn from_bits(bits: u64) -> (r: F64)
        ensures
            r.bits == bits,
    {
        F64 { bits }
    }

    /// The bit pattern of the value.
    pub fn to_bits(self) -> (r: u64)
        ensures
            r == self.bits,
    {
        self.bits
    }

    /// What `is_nan` returns.
    pub open spec fn spec_is_nan(self) -> bool {
        is_nan(Format::Double, self.bits as nat)
    }

    /// Whether the value is a NaN.
    #[verifier::when_used_as_spec(spec_is_nan)]
    pub fn is_nan(self) -> (r: bool)
        ensures
            r == self.spec_is_nan(),
    {
        let magnitude: u64 = if self.bits >= 0x8000_0000_0000_0000 {
            self.bits - 0x8000_0000_0000_0000
        } else {
            self.bits
        };
        magnitude > 0x7ff0_0000_0000_0000
    }

    /// What `is_infinite` returns.
    pub open spec fn spec_is_infinite(self) -> bool {
        is_infinite(Format::Double, self.bits as nat)
    }

    /// Whether the value is an infinity of either sign.
    #[verifier::when_used_as_spec(spec_is_infinite)]
    pub fn is_infinite(self) -> (r: bool)
        ensures
            r == self.spec_is_infinite(),
    {
        let magnitude: u64 = if self.bits >= 0x8000_0000_0000_0000 {
            self.bits - 0x8000_0000_0000_0000
        } else {
            self.bits
        };
        magnitude == 0x7ff0_0000_0000_0000
    }

    /// What `from_usize` returns.
    #[verifier::opaque]
    pub open spec fn spec_from_usize(n: usize) -> F64 {
        F64 { bits: from_nat(Format::Double, n as nat) as u64 }
    }

    /// The value nearest to `n`.
    #[verifier::when_used_as_spec(spec_from_usize)]
    pub fn from_usize(n: usize) -> (r: F64)
        ensures
            r == F64::spec_from_usize(n),
    {
        reveal(F64::spec_from_usize);
        F64 { bits: from_u64(Format::Double, n as u64) }
    }

    /// What `from_single` returns.
    #[verifier::opaque]
    pub open spec fn spec_from_single(x: F32) -> F64 {
        F64 { bits: convert(Format::Double, decode(Format::Single, x.bits as nat)) as u64 }
    }

    /// The binary64 value equal to the binary32 value `x`.
    #[verifier::when_used_as_spec(spec_from_single)]
    pub fn from_single(x: F32) -> (r: F64)
        ensures
            r == F64::spec_from_single(x),
    {
        reveal(F64::spec_from_single);
        F64 { bits: pack_rounded(Format::Double, unpack(Format::Single, x.bits as u64)) }
    }

    /// What `to_single` returns.
    #[verifier::opaque]
    pub open spec fn spec_to_single(self) -> F32 {
        F32 { bits: convert(Format::Single, decode(Format::Double, self.bits as nat)) as u32 }
    }

    /// The binary32 value nearest to the value.
    #[verifier::when_used_as_spec(spec_to_single)]
    pub fn to_single(self) -> (r: F32)
        ensures
            r == self.spec_to_single(),
    {
        reveal(F64::spec_to_single);
        F32 { bits: pack_rounded(Format::Single, unpack(Format::Double, self.bits)) as u32 }
    }

    /// What `add` returns.
    #[verifier::opaque]
    pub open spec fn spec_add(self, rhs: F64) -> F64 {
        F64 {
            bits: sum(
                Format::Double,
                decode(Format::Double, self.bits as nat),
                decode(Format::Double, rhs.bits as nat),
            ) as u64,
        }
    }

    /// `self + rhs`, correctly rounded.
    #[verifier::when_used_as_spec(spec_add)]
    pub fn add(self, rhs: F64) -> (r: F64)
        ensures
            r == self.spec_add(rhs),
    {
        reveal(F64::spec_add);
        F64 { bits: add_bits(Format::Double, self.bits, rhs.bits) }
    }

    /// What `sub` returns.
    #[verifier::opaque]
    pub open spec fn spec_sub(self, rhs: F64) -> F64 {
        F64 {
            bits: difference(
                Format::Double,
                decode(Format::Double, self.bits as nat),
                decode(Format::Double, rhs.bits as nat),
            ) as u64,
        }
    }

    /// `self - rhs`, correctly rounded.
    #[verifier::when_used_as_spec(spec_sub)]
    pub fn sub(self, rhs: F64) -> (r: F64)
        ensures
            r == self.spec_sub(rhs),
    {
        reveal(F64::spec_sub);
        F64 { bits: add_bits(Format::Double, self.bits, negate(Format::Double, rhs.bits)) }
    }

    /// What `mul` returns.
    #[verifier::opaque]
    pub open spec fn spec_mul(self, rhs: F64) -> F64 {
        F64 {
            bits: product(
                Format::Double,
                decode(Format::Double, self.bits as nat),
                decode(Format::Double, rhs.bits as nat),
            ) as u64,
        }
    }

    /// `self * rhs`, correctly rounded.
    #[verifier::when_used_as_spec(spec_mul)]
    pub fn mul(self, rhs: F64) -> (r: F64)
        ensures
            r == self.spec_mul(rhs),
    {
        reveal(F64::spec_mul);
        F64 {
            bits: multiply(
                Format::Double,
                unpack(Format::Double, self.bits),
                unpack(Format::Double, rhs.bits),
            ),
        }
    }

    /// What `div` returns.
    #[verifier::opaque]
    pub open spec fn spec_div(self, rhs: F64) -> F64 {
        F64 {
            bits: quotient(
                Format::Double,
                decode(Format::Double, self.bits as nat),
                decode(Format::Double, rhs.bits as nat),
            ) as u64,
        }
    }

    /// `self / rhs`, correctly rounded.
    #[verifier::when_used_as_spec(spec_div)]
    pub fn div(self, rhs: F64) -> (r: F64)
        ensures
            r == self.spec_div(rhs),
    {
        reveal(F64::spec_div);
        F64 {
            bits: divide(
                Format::Double,
                unpack(Format::Double, self.bits),
                unpack(Format::Double, rhs.bits),
            ),
        }
    }

    /// The place of a value that is no NaN among the others, as a signed
    /// integer: the executable form of `ieee::ordinal`.
    fn key(self) -> (k: i128)
        ensures
            k == crate::ieee::ordinal(Format::Double, self.bits as nat),
    {
        if self.bits >= 0x8000_0000_0000_0000 {
            -((self.bits - 0x8000_0000_0000_0000) as i128)
        } else {
            self.bits as i128
        }
    }

    /// What `lt` returns.
    pub open spec fn spec_lt(self, rhs: F64) -> bool {
        less(Format::Double, self.bits as nat, rhs.bits as nat)
    }

    /// `self < rhs`; false where either is a NaN.
    #[verifier::when_used_as_spec(spec_lt)]
    pub fn lt(self, rhs: F64) -> (r: bool)
        ensures
            r == self.spec_lt(rhs),
    {
        !self.is_nan() && !rhs.is_nan() && self.key() < rhs.key()
    }

    /// What `le` returns.
    pub open spec fn spec_le(self, rhs: F64) -> bool {
        less_or_equal(Format::Double, self.bits as nat, rhs.bits as nat)
    }

    /// `self <= rhs`; false where either is a NaN.
    #[verifier::when_used_as_spec(spec_le)]
    pub fn le(self, rhs: F64) -> (r: bool)
        ensures
            r == self.spec_le(rhs),
    {
        !self.is_nan() && !rhs.is_nan() && self.key() <= rhs.key()
    }

    /// What `gt` returns.
    pub open spec fn spec_gt(self, rhs: F64) -> bool {
        rhs.spec_lt(self)
    }

    /// `self > rhs`; false where either is a NaN.
    #[verifier::when_used_as_spec(spec_gt)]
    pub fn gt(self, rhs: F64) -> (r: bool)
        ensures
            r == self.spec_gt(rhs),
    {
        rhs.lt(self)
    }

    /// What `ge` returns.
    pub open spec fn spec_ge(self, rhs: F64) -> bool {
        rhs.spec_le(self)
    }

    /// `self >= rhs`; false where either is a NaN.
    #[verifier::when_used_as_spec(spec_ge)]
    pub fn ge(self, rhs: F64) -> (r: bool)
        ensures
            r == self.spec_ge(rhs),
    {
        rhs.le(self)
    }

    /// What `eq` returns.
    pub open spec fn spec_eq(self, rhs: F64) -> bool {
        equal(Format::Double, self.bits as nat, rhs.bits as nat)
    }

    /// `self == rhs` as numbers: false where either is a NaN, true of the
    /// two zeros.
    #[verifier::when_used_as_spec(spec_eq)]
    pub fn eq(self, rhs: F64) -> (r: bool)
        ensures
            r == self.spec_eq(rhs),
    {
        !self.is_nan() && !rhs.is_nan() && self.key() == rhs.key()
    }
}

impl F32 {
    /// The NaN that the digest answers with when it is empty.
    pub open spec fn spec_nan() -> F32 {
        F32 { bits: 0x7fc0_0000 }
    }

    /// The value `1.0`.
    pub open spec fn spec_one() -> F32 {
        F32 { bits: 0x3f80_0000 }
    }

    /// The quiet NaN with an empty payload.
    #[verifier::when_used_as_spec(spec_nan)]
    pub fn nan() -> (r: F32)
        ensures
            r == F32::spec_nan(),
    {
        F32 { bits: 0x7fc0_0000 }
    }

    /// The value `1.0`.
    #[verifier::when_used_as_spec(spec_one)]
    pub fn one() -> (r: F32)
        ensures
            r == F32::spec_one(),
    {
        F32 { bits: 0x3f80_0000 }
    }

    /// The value with the given bit pattern.
    pub fn from_bits(bits: u32) -> (r: F32)
        ensures
            r.bits == bits,
    {
        F32 { bits }
    }

    /// The bit pattern of the value.
    pub fn to_bits(self) -> (r: u32)
        ensures
            r == self.bits,
    {
        self.bits
    }

    /// What `is_nan` returns.
    pub open spec fn spec_is_nan(self) -> bool {
        is_nan(Format::Single, self.bits as nat)
    }

    /// Whether the value is a NaN.
    #[verifier::when_used_as_spec(spec_is_nan)]
    pub fn is_nan(self) -> (r: bool)
        ensures
            r == self.spec_is_nan(),
    {
        let magnitude: u32 = if self.bits >= 0x8000_0000 {
            self.bits - 0x8000_0000
        } else {
            self.bits
        };
        magnitude > 0x7f80_0000
    }

    /// What `is_infinite` returns.
    pub open spec fn spec_is_infinite(self) -> bool {
        is_infinite(Format::Single, self.bits as nat)
    }

    /// Whether the value is an infinity of either sign.
    #[verifier::when_used_as_spec(spec_is_infinite)]
    pub fn is_infinite(self) -> (r: bool)
        ensures
            r == self.spec_is_infinite(),
    {
        let magnitude: u32 = if self.bits >= 0x8000_0000 {
            self.bits - 0x8000_0000
        } else {
            self.bits
        };
        magnitude == 0x7f80_0000
    }

    /// What `add` returns.
    #[verifier::opaque]
    pub open spec fn spec_add(self, rhs: F32) -> F32 {
        F32 {
            bits: sum(
                Format::Single,
                decode(Format::Single, self.bits as nat),
                decode(Format::Single, rhs.bits as nat),
            ) as u32,
        }
    }

    /// `self + rhs`, correctly rounded.
    #[verifier::when_used_as_spec(spec_add)]
    pub fn add(self, rhs: F32) -> (r: F32)
        ensures
            r == self.spec_add(rhs),
    {
        reveal(F32::spec_add);
        F32 { bits: add_bits(Format::Single, self.bits as u64, rhs.bits as u64) as u32 }
    }

    /// What `sub` returns.
    #[verifier::opaque]
    pub open spec fn spec_sub(self, rhs: F32) -> F32 {
        F32 {
            bits: difference(
                Format::Single,
                decode(Format::Single, self.bits as nat),
                decode(Format::Single, rhs.bits as nat),
            ) as u32,
        }
    }

    /// `self - rhs`, correctly rounded.
    #[verifier::when_used_as_spec(spec_sub)]
    pub fn sub(self, rhs: F32) -> (r: F32)
        ensures
            r == self.spec_sub(rhs),
    {
        reveal(F32::spec_sub);
        F32 {
            bits: add_bits(
                Format::Single,
                self.bits as u64,
                negate(Format::Single, rhs.bits as u64),
            ) as u32,
        }
    }

    /// What `mul` returns.
    #[verifier::opaque]
    pub open spec fn spec_mul(self, rhs: F32) -> F32 {
        F32 {
            bits: product(
                Format::Single,
                decode(Format::Single, self.bits as nat),
                decode(Format::Single, rhs.bits as nat),
            ) as u32,
        }
    }

    /// `self * rhs`, correctly rounded.
    #[verifier::when_used_as_spec(spec_mul)]
    pub fn mul(self, rhs: F32) -> (r: F32)
        ensures
            r == self.spec_mul(rhs),
    {
        reveal(F32::spec_mul);
        F32 {
            bits: multiply(
                Format::Single,
                unpack(Format::Single, self.bits as u64),
                unpack(Format::Single, rhs.bits as u64),
            ) as u32,
        }
    }

    /// What `div` returns.
    #[verifier::opaque]
    pub open spec fn spec_div(self, rhs: F32) -> F32 {
        F32 {
            bits: quotient(
                Format::Single,
                decode(Format::Single, self.bits as nat),
                decode(Format::Single, rhs.bits as nat),
            ) as u32,
        }
    }

    /// `self / rhs`, correctly rounded.
    #[verifier::when_used_as_spec(spec_div)]
    pub fn div(self, rhs: F32) -> (r: F32)
        ensures
            r == self.spec_div(rhs),
    {
        reveal(F32::spec_div);
        F32 {
            bits: divide(
                Format::Single,
                unpack(Format::Single, self.bits as u64),
                unpack(Format::Single, rhs.bits as u64),
            ) as u32,
        }
    }

    /// The place of a value that is no NaN among the others, as a signed
    /// integer: the executable form of `ieee::ordinal`.
    fn key(self) -> (k: i64)
        ensures
            k == crate::ieee::ordinal(Format::Single, self.bits as nat),
    {
        if self.bits >= 0x8000_0000 {
            -((self.bits - 0x8000_0000) as i64)
        } else {
            self.bits as i64
        }
    }

    /// What `lt` returns.
    pub open spec fn spec_lt(self, rhs: F32) -> bool {
        less(Format::Single, self.bits as nat, rhs.bits as nat)
    }

    /// `self < rhs`; false where either is a NaN.
    #[verifier::when_used_as_spec(spec_lt)]
    pub fn lt(self, rhs: F32) -> (r: bool)
        ensures
            r == self.spec_lt(rhs),
    {
        !self.is_nan() && !rhs.is_nan() && self.key() < rhs.key()
    }

    /// What `eq` returns.
    pub open spec fn spec_eq(self, rhs: F32) -> bool {
        equal(Format::Single, self.bits as nat, rhs.bits as nat)
    }

    /// `self == rhs` as numbers: false where either is a NaN, true of the
    /// two zeros.
    #[verifier::when_used_as_spec(spec_eq)]
    pub fn eq(self, rhs: F32) -> (r: bool)
        ensures
            r == self.spec_eq(rhs),
    {
        !self.is_nan() && !rhs.is_nan() && self.key() == rhs.key()
    }
}

} // verus!
