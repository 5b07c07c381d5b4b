//! Facts about binary digits that the proofs of the format rest on.

use vstd::arithmetic::power2::{
    lemma2_to64, lemma2_to64_rest, lemma_pow2_strictly_increases, lemma_pow2_unfold, pow2,
};
use vstd::prelude::*;
use vstd::std_specs::bits::u64_leading_zeros;
use crate::wire::bit_length;

verus! {

/// A number has at most `k` binary digits exactly when it lies below `2^k`.
pub proof fn lemma_bit_length_le(v: nat, k: nat)
    ensures
        bit_length(v) <= k <==> v < pow2(k),
    decreases k,
{
    if k == 0 {
        lemma2_to64();
    } else {
        lemma_pow2_unfold(k);
        lemma_bit_length_le(v / 2, (k - 1) as nat);
    }
}

/// Dropping the seven lowest binary digits of a number that has seven or
/// more leaves seven fewer.
pub proof fn lemma_bit_length_drop7(v: nat)
    requires
        v >= 64,
    ensures
        bit_length(v) == 7 + bit_length(v / 128),
{
    assert(v / 2 / 2 / 2 / 2 / 2 / 2 / 2 == v / 128);
    assert(v / 2 / 2 / 2 / 2 / 2 / 2 >= 1);
    reveal_with_fuel(bit_length, 8);
}

/// A number below 128 has at most seven binary digits; one below 64, at most six.
pub proof fn lemma_bit_length_small(v: nat)
    ensures
        v < 128 <==> bit_length(v) <= 7,
        v < 64 <==> bit_length(v) <= 6,
        v < 2 <==> bit_length(v) <= 1,
{
    lemma2_to64();
    lemma_bit_length_le(v, 7);
    lemma_bit_length_le(v, 6);
    lemma_bit_length_le(v, 1);
}

/// A 64-bit number has at most 64 binary digits, and one below `2^63` at most 63.
pub proof fn lemma_bit_length_u64(v: nat)
    ensures
        v <= u64::MAX <==> bit_length(v) <= 64,
        v < 0x8000_0000_0000_0000 <==> bit_length(v) <= 63,
        v < 0x4000_0000_0000_0000 <==> bit_length(v) <= 62,
{
    lemma2_to64();
    lemma2_to64_rest();
    lemma_bit_length_le(v, 64);
    lemma_bit_length_le(v, 63);
    lemma_bit_length_le(v, 62);
}

/// The larger number has no fewer binary digits.
pub proof fn lemma_bit_length_monotonic(a: nat, b: nat)
    requires
        a <= b,
    ensures
        bit_length(a) <= bit_length(b),
    decreases b,
{
    if a > 0 {
        lemma_bit_length_monotonic(a / 2, b / 2);
    }
}

/// The leading zeros of a 64-bit number are the binary digits that it lacks.
pub proof fn lemma_leading_zeros(x: u64)
    ensures
        u64_leading_zeros(x) == 64 - bit_length(x as nat),
    decreases x,
{
    reveal(u64_leading_zeros);
    if x != 0 {
        lemma_leading_zeros(x / 2);
    }
}

/// Below 64, a power of two is at most `2^63`.
pub proof fn lemma_pow2_below_63(e: nat)
    requires
        e <= 63,
    ensures
        pow2(e) <= 0x8000_0000_0000_0000,
{
    lemma2_to64_rest();
    if e < 63 {
        lemma_pow2_strictly_increases(e, 63);
    }
}

} // verus!
