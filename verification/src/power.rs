//! Powers of two and binary logarithms, with the executable helpers that the
//! floating-point kernel builds on.

use vstd::arithmetic::div_mod::{lemma_div_denominator, lemma_fundamental_div_mod};
use vstd::arithmetic::power2::{
    lemma2_to64, lemma_pow2_adds, lemma_pow2_pos, lemma_pow2_strictly_increases,
    lemma_pow2_unfold, pow2,
};
use vstd::bits::lemma_u128_shr_is_div;
use vstd::prelude::*;

verus! {

/// Floor of the binary logarithm of `n`; zero for `n < 2`.
pub open spec fn ilog2(n: nat) -> nat
    decreases n,
{
    if n < 2 {
        0
    } else {
        1 + ilog2(n / 2)
    }
}

/// `2^k` for `k >= 0`, and `1` for negative `k`: the factor that scales a
/// significand up by `k` binary places when `k` is positive.
pub open spec fn pow2_or_one(k: int) -> nat {
    if k > 0 {
        pow2(k as nat)
    } else {
        1
    }
}

/// Powers of two are monotone in the exponent.
pub proof fn lemma_pow2_monotone(a: nat, b: nat)
    requires
        a <= b,
    ensures
        pow2(a) <= pow2(b),
{
    if a < b {
        lemma_pow2_strictly_increases(a, b);
    }
}

/// `ilog2(n)` is the exponent of the largest power of two not above `n`.
pub proof fn lemma_ilog2_bounds(n: nat)
    requires
        n >= 1,
    ensures
        pow2(ilog2(n)) <= n < pow2(ilog2(n) + 1),
    decreases n,
{
    if n < 2 {
        lemma2_to64();
    } else {
        lemma_ilog2_bounds(n / 2);
        lemma_pow2_unfold(ilog2(n));
        lemma_pow2_unfold(ilog2(n) + 1);
    }
}

/// The exponent `k` with `2^k <= n < 2^(k+1)` is `ilog2(n)`.
pub proof fn lemma_ilog2_unique(n: nat, k: nat)
    requires
        pow2(k) <= n < pow2(k + 1),
    ensures
        ilog2(n) == k,
{
    lemma_pow2_pos(k);
    lemma_ilog2_bounds(n);
    let l = ilog2(n);
    if l < k {
        lemma_pow2_monotone(l + 1, k);
    } else if l > k {
        lemma_pow2_monotone(k + 1, l);
    }
}

proof fn lemma_one_shl(k: u32)
    requires
        k < 128,
    ensures
        (1u128 << k) == pow2(k as nat),
    decreases k,
{
    if k == 0 {
        assert(1u128 << 0u32 == 1u128) by (bit_vector);
        lemma2_to64();
    } else {
        let j: u32 = (k - 1) as u32;
        lemma_one_shl(j);
        assert(1u128 << k == 2 * (1u128 << j)) by (bit_vector)
            requires
                0 < k < 128,
                j == k - 1,
        ;
        lemma_pow2_unfold(k as nat);
    }
}

/// Computes `2^k`.
pub fn pow2_u128(k: u32) -> (r: u128)
    requires
        k < 128,
    ensures
        r == pow2(k as nat),
{
    proof {
        lemma_one_shl(k);
    }
    1u128 << k
}

/// Number of significant bits of `n`: zero for zero, and otherwise the `r`
/// with `2^(r-1) <= n < 2^r`.
pub fn bit_length(n: u128) -> (r: u32)
    ensures
        n == 0 ==> r == 0,
        n > 0 ==> 1 <= r <= 128 && r == ilog2(n as nat) + 1,
{
    if n == 0 {
        return 0;
    }
    let mut x: u128 = n;
    let mut r: u32 = 0;
    let mut s: u32 = 64;
    proof {
        lemma2_to64();
        lemma_pow2_adds(64, 64);
    }
    while s > 0
        invariant
            s == 64 || s == 32 || s == 16 || s == 8 || s == 4 || s == 2 || s == 1 || s == 0,
            x == n as nat / pow2(r as nat),
            x >= 1,
            r + 2 * s <= 128,
            s > 0 ==> x < pow2(2 * s as nat),
            s == 0 ==> x < 2,
        decreases s,
    {
        let bound: u128 = pow2_u128(s);
        proof {
            lemma_pow2_adds(s as nat, s as nat);
            lemma_pow2_pos(s as nat);
            lemma_pow2_pos(r as nat);
        }
        if x >= bound {
            proof {
                lemma_u128_shr_is_div(x, s as u128);
                lemma_div_denominator(n as int, pow2(r as nat) as int, pow2(s as nat) as int);
                lemma_pow2_adds(r as nat, s as nat);
                let p: int = pow2(s as nat) as int;
                let xi: int = x as int;
                lemma_fundamental_div_mod(xi, p);
                assert(1 <= xi / p < p) by (nonlinear_arith)
                    requires
                        p <= xi < p * p,
                        p > 0,
                        xi == p * (xi / p) + (xi % p),
                        0 <= xi % p < p,
                ;
            }
            x = x >> s;
            r = r + s;
        }
        proof {
            lemma2_to64();
        }
        s = s / 2;
    }
    proof {
        let d: int = pow2(r as nat) as int;
        let ni: int = n as int;
        lemma_pow2_pos(r as nat);
        lemma_fundamental_div_mod(ni, d);
        lemma_pow2_unfold((r + 1) as nat);
        assert(d <= ni < 2 * d) by (nonlinear_arith)
            requires
                ni == d * (ni / d) + (ni % d),
                ni / d == 1,
                0 <= ni % d < d,
        ;
        lemma_ilog2_unique(n as nat, r as nat);
    }
    r + 1
}

} // verus!
