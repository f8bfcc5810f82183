//! Bit lengths and powers of two, as the level lookup counts them.

use vstd::arithmetic::power2::{lemma2_to64, lemma_pow2_pos, lemma_pow2_strictly_increases, lemma_pow2_unfold, pow2};
use vstd::bits::lemma_u32_shr_is_div;
use vstd::prelude::*;
use vstd::std_specs::bits::{axiom_u32_leading_zeros, u32_leading_zeros};

verus! {

/// The number of binary digits of `n`: 0 for 0, and `floor(log2 n) + 1` otherwise.
pub open spec fn bit_length(n: nat) -> nat
    decreases n,
{
    if n == 0 {
        0
    } else {
        1 + bit_length(n / 2)
    }
}

/// The smallest power of two that is at least `n` (1 for 0 and 1).
pub open spec fn next_pow2(n: nat) -> nat {
    if n <= 1 {
        1
    } else {
        pow2(bit_length((n - 1) as nat))
    }
}

/// A positive number lies between the two powers of two that its bit length names.
pub proof fn lemma_bit_length_bounds(n: nat)
    requires
        n > 0,
    ensures
        pow2((bit_length(n) - 1) as nat) <= n < pow2(bit_length(n)),
    decreases n,
{
    lemma2_to64();
    if n == 1 {
        assert(bit_length(1) == 1 + bit_length(0));
    } else {
        lemma_bit_length_bounds(n / 2);
        let b = bit_length(n / 2);
        lemma_pow2_unfold(b);
        lemma_pow2_unfold(b + 1);
    }
}

/// The bit length is the only exponent whose powers of two bracket `n`.
pub proof fn lemma_bit_length_unique(n: nat, b: nat)
    requires
        b > 0,
        pow2((b - 1) as nat) <= n < pow2(b),
    ensures
        bit_length(n) == b,
{
    lemma_pow2_pos((b - 1) as nat);
    lemma_bit_length_bounds(n);
    let c = bit_length(n);
    if c < b {
        if c < b - 1 {
            lemma_pow2_strictly_increases(c, (b - 1) as nat);
        }
    } else if b < c {
        if b < c - 1 {
            lemma_pow2_strictly_increases(b, (c - 1) as nat);
        }
    }
}

/// The bit length never shrinks when the number grows.
pub proof fn lemma_bit_length_monotonic(a: nat, b: nat)
    requires
        a <= b,
    ensures
        bit_length(a) <= bit_length(b),
    decreases b,
{
    if a > 0 {
        lemma_bit_length_monotonic(a / 2, b / 2);
    }
}

/// `next_pow2(n)` is a power of two, is at least `n`, and no smaller power of
/// two is.
pub proof fn lemma_next_pow2_is_least(n: nat, e: nat)
    ensures
        exists|k: nat| next_pow2(n) == pow2(k),
        n <= next_pow2(n),
        n <= pow2(e) ==> next_pow2(n) <= pow2(e),
{
    lemma2_to64();
    lemma_pow2_pos(e);
    if n <= 1 {
        assert(next_pow2(n) == pow2(0));
    } else {
        let m = (n - 1) as nat;
        let b = bit_length(m);
        lemma_bit_length_bounds(m);
        assert(next_pow2(n) == pow2(b));
        if e < b - 1 {
            lemma_pow2_strictly_increases(e, (b - 1) as nat);
        } else if b < e {
            lemma_pow2_strictly_increases(b, e);
        }
    }
}

/// The machine's count of leading zeros is 32 less the bit length.
pub proof fn lemma_leading_zeros_is_bit_length(x: u32)
    ensures
        u32_leading_zeros(x) == 32 - bit_length(x as nat),
{
    axiom_u32_leading_zeros(x);
    lemma2_to64();
    let z = u32_leading_zeros(x);
    if x != 0 {
        let hi: u32 = (31 - z) as u32;
        lemma_u32_shr_is_div(x, hi);
        assert(x >> hi != 0) by (bit_vector)
            requires
                (x >> hi) & 1u32 != 0u32,
        ;
        lemma_pow2_pos(hi as nat);
        assert(x as nat >= pow2(hi as nat)) by (nonlinear_arith)
            requires
                x as nat / pow2(hi as nat) != 0,
                pow2(hi as nat) > 0,
        ;
        if z > 0 {
            let top: u32 = (32 - z) as u32;
            lemma_u32_shr_is_div(x, top);
            lemma_pow2_pos(top as nat);
            assert((x as nat) < pow2(top as nat)) by (nonlinear_arith)
                requires
                    x as nat / pow2(top as nat) == 0,
                    pow2(top as nat) > 0,
            ;
        }
        lemma_bit_length_unique(x as nat, (32 - z) as nat);
    }
}

/// A `u32` has at most 32 binary digits.
pub proof fn lemma_bit_length_u32_bound(x: u32)
    ensures
        bit_length(x as nat) <= 32,
{
    lemma_leading_zeros_is_bit_length(x);
    axiom_u32_leading_zeros(x);
}

/// The bit length of a `u32`, from its leading zeros.
pub fn bit_length_u32(x: u32) -> (r: u32)
    ensures
        r == bit_length(x as nat),
        r <= 32,
{
    proof {
        lemma_leading_zeros_is_bit_length(x);
        axiom_u32_leading_zeros(x);
    }
    32 - x.leading_zeros()
}

} // verus!
