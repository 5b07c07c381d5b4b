//! Writing numbers in LEB128.

use vstd::prelude::*;
use crate::laws::{
    lemma_signed_encoding_len, lemma_signed_encoding_len_max, lemma_unsigned_encoding_len,
    lemma_unsigned_encoding_len_max,
};
use crate::wire::{bit_length, signed_bit_length, signed_encoding, unsigned_encoding};
use crate::{low_bits_of_u64, CONTINUATION_BIT, SIGN_BIT};

verus! {

/// Appends the encoding of the unsigned number `val` to `w` and returns the
/// number of bytes appended: one for zero, and otherwise as many as the
/// binary digits of `val` fill, seven to a byte.
pub fn unsigned(w: &mut Vec<u8>, val: u64) -> (written: usize)
    ensures
        final(w)@ == old(w)@ + unsigned_encoding(val as nat),
        written == unsigned_encoding(val as nat).len(),
        written == if val == 0 {
            1
        } else {
            (bit_length(val as nat) + 6) / 7
        },
        written <= (bit_length(val as nat) + 6) / 7 + 1,
        1 <= written <= 10,
{
    proof {
        lemma_unsigned_encoding_len_max(val);
    }
    let mut rest: u64 = val;
    let mut bytes_written: usize = 0;
    loop
        invariant
            unsigned_encoding(val as nat).len() <= 10,
            bytes_written + unsigned_encoding(rest as nat).len() == unsigned_encoding(
                val as nat,
            ).len(),
            w@ + unsigned_encoding(rest as nat) == old(w)@ + unsigned_encoding(val as nat),
        decreases rest,
    {
        let ghost before = w@;
        let ghost group = rest;
        let mut byte: u8 = low_bits_of_u64(rest);
        rest = rest >> 7;
        assert(group >> 7 == group / 128) by (bit_vector);
        if rest != 0 {
            assert(byte < 128 ==> byte | 0x80 == byte + 128) by (bit_vector);
            byte = byte | CONTINUATION_BIT;
        }
        w.push(byte);
        bytes_written = bytes_written + 1;
        assert(before.push(byte) + unsigned_encoding(rest as nat) =~= before + (seq![byte]
            + unsigned_encoding(rest as nat)));
        if rest == 0 {
            assert(w@ =~= before + unsigned_encoding(group as nat));
            proof {
                lemma_unsigned_encoding_len(val as nat);
            }
            return bytes_written;
        }
    }
}

/// Appends the encoding of the signed number `val` to `w` and returns the
/// number of bytes appended: as many as the binary digits of `val` and one
/// sign bit fill, seven to a byte.
pub fn signed(w: &mut Vec<u8>, val: i64) -> (written: usize)
    ensures
        final(w)@ == old(w)@ + signed_encoding(val as int),
        written == signed_encoding(val as int).len(),
        written == signed_bit_length(val as int) / 7 + 1,
        written <= (bit_length((if val >= 0 { val as int } else { -val }) as nat) + 6) / 7 + 1,
        1 <= written <= 10,
{
    proof {
        lemma_signed_encoding_len(val as int);
        lemma_signed_encoding_len_max(val);
    }
    let mut rest: i64 = val;
    let mut more: bool = true;
    let mut bytes_written: usize = 0;
    while more
        invariant
            signed_encoding(val as int).len() <= 10,
            more ==> bytes_written + signed_encoding(rest as int).len() == signed_encoding(
                val as int,
            ).len(),
            more ==> w@ + signed_encoding(rest as int) == old(w)@ + signed_encoding(val as int),
            !more ==> bytes_written == signed_encoding(val as int).len(),
            !more ==> w@ == old(w)@ + signed_encoding(val as int),
        decreases
                (if more {
                    1 + (if rest >= 0 {
                        rest as int
                    } else {
                        -rest
                    })
                } else {
                    0int
                }),
    {
        let ghost before = w@;
        let ghost group = rest;
        let mut byte: u8 = low_bits_of_u64(#[verifier::truncate] (rest as u64));
        assert((#[verifier::truncate] (group as u64)) % 128 == (group as int) % 128)
            by (bit_vector);
        rest = rest >> 7;
        assert(group >> 7 == (group as int) / 128) by (bit_vector);
        assert(byte < 128 ==> (byte & 0x40 == 0 <==> byte < 64)) by (bit_vector);
        assert(byte < 128 ==> (byte & 0x40 == 0x40 <==> byte >= 64)) by (bit_vector);
        if (rest == 0 && (byte & SIGN_BIT) == 0) || (rest == -1 && (byte & SIGN_BIT) == SIGN_BIT) {
            more = false;
        } else {
            assert(byte < 128 ==> byte | 0x80 == byte + 128) by (bit_vector);
            byte = byte | CONTINUATION_BIT;
        }
        w.push(byte);
        bytes_written = bytes_written + 1;
        assert(before.push(byte) + signed_encoding(rest as int) =~= before + (seq![byte]
            + signed_encoding(rest as int)));
        assert(!more ==> w@ =~= before + signed_encoding(group as int));
    }
    bytes_written
}

} // verus!
