//! LEB128 ("Little Endian Base 128"): a variable-length encoding of integers,
//! seven bits to a byte, least significant group first.
//!
//! `write` appends the encoding of a number to a buffer, `read` takes a
//! number off the front of a slice, or byte by byte from any source. `wire`
//! says what the bytes mean, and `laws` proves what holds between the two.

use vstd::prelude::*;

mod arith;
pub mod laws;
pub mod read;
pub mod wire;
pub mod write;

verus! {

/// Bit 7 of an encoded byte: set when another byte follows.
pub const CONTINUATION_BIT: u8 = 0x80;

/// Bit 6 of the last byte of a signed encoding: set when the value is negative.
pub const SIGN_BIT: u8 = 0x40;

/// The seven payload bits of an encoded byte.
pub fn low_bits_of_byte(byte: u8) -> (low: u8)
    ensures
        low == byte % 128,
        low == byte & 0x7f,
{
    assert(byte & !0x80u8 == byte % 128) by (bit_vector);
    assert(byte & !0x80u8 == byte & 0x7f) by (bit_vector);
    byte & !CONTINUATION_BIT
}

/// The seven least significant bits of `val`.
pub fn low_bits_of_u64(val: u64) -> (low: u8)
    ensures
        low == val % 128,
{
    let byte: u64 = val & 0xff;
    assert(val & 0xff < 256) by (bit_vector);
    assert(((val & 0xff) as u8) % 128 == val % 128) by (bit_vector);
    low_bits_of_byte(byte as u8)
}

} // verus!
