//! Bit length of an integer, the quantity from which the cipher's halves are
//! sized.

use vstd::prelude::*;

verus! {

use vstd::arithmetic::power2::{
    pow2,
    lemma_pow2_unfold,
    lemma_pow2_strictly_increases,
    lemma2_to64,
    lemma2_to64_rest,
};

/// The number of significant bits of `n`: zero for zero, else one more than
/// the position of the highest set bit.
pub open spec fn bit_len(n: nat) -> nat
    decreases n,
{
    if n == 0 {
        0
    } else {
        1 + bit_len(n / 2)
    }
}

/// `bit_len(n)` is the least `b` with `n < 2^b`.
pub proof fn lemma_bit_len_bounds(n: nat)
    ensures
        n < pow2(bit_len(n)),
        bit_len(n) == 0 || pow2((bit_len(n) - 1) as nat) <= n,
    decreases n,
{
    if n == 0 {
        lemma2_to64();
    } else {
        lemma_bit_len_bounds(n / 2);
        lemma_pow2_unfold(bit_len(n));
        if n / 2 != 0 {
            lemma_pow2_unfold((bit_len(n) - 1) as nat);
        } else {
            lemma2_to64();
        }
    }
}

/// A `u64` has at most 64 significant bits.
pub proof fn lemma_bit_len_u64(n: u64)
    ensures
        bit_len(n as nat) <= 64,
{
    lemma_bit_len_bounds(n as nat);
    lemma2_to64_rest();
    if bit_len(n as nat) > 65 {
        lemma_pow2_strictly_increases(64, (bit_len(n as nat) - 1) as nat);
    }
}

/// The position of the highest set bit of `n`, that is `floor(log2(n))`,
/// taken as zero for zero and one.
pub open spec fn high_bit(n: nat) -> nat {
    if n <= 1 {
        0
    } else {
        (bit_len(n) - 1) as nat
    }
}

/// Below a nonzero `n`'s highest set bit lie exactly `bit_len(n) - 1` bits.
pub proof fn lemma_high_bit_bit_len(n: nat)
    requires
        n >= 1,
    ensures
        high_bit(n) + 1 == bit_len(n),
{
    assert(bit_len(n) == 1 + bit_len(n / 2));
    if n == 1 {
        assert(bit_len(0) == 0);
    }
}

/// The position of the highest set bit of `num`; zero for zero and one.
pub fn count_bits(num: u64) -> (bits: u32)
    ensures
        bits as nat == high_bit(num as nat),
        bits <= 63,
{
    let mut bits: u32 = 0;
    let mut rest: u64 = num;
    proof {
        lemma_bit_len_u64(num);
    }
    while rest > 1
        invariant
            bits as nat + high_bit(rest as nat) == high_bit(num as nat),
            bit_len(num as nat) <= 64,
        decreases rest,
    {
        proof {
            lemma_high_bit_bit_len(rest as nat);
            lemma_high_bit_bit_len((rest / 2) as nat);
        }
        rest = rest / 2;
        bits = bits + 1;
    }
    bits
}

} // verus!
