//! Reading numbers written in LEB128.

use vstd::arithmetic::power2::{lemma2_to64_rest, lemma_pow2_adds, pow2};
use vstd::bits::{lemma_u64_pow2_no_overflow, lemma_u64_shl_is_mul, lemma_u64_shr_is_div};
use vstd::prelude::*;
use vstd::std_specs::convert::FromSpecImpl;
use vstd::string::StringExecFns;
use crate::arith::{lemma_bit_length_le, lemma_leading_zeros};
use crate::wire::{
    continues, fits, lemma_magnitude_below, lemma_magnitude_push, magnitude, scan, scan_from,
    signed_value, Scan,
};
use crate::{low_bits_of_byte, CONTINUATION_BIT, SIGN_BIT};

verus! {

/// `std::io::Error`, the standard library's error of input and output. It is
/// declared only to be carried along: nothing is claimed of what is inside.
#[verifier::external_type_specification]
#[verifier::external_body]
pub struct ExIoError(std::io::Error);

/// Why reading a number failed.
#[derive(Debug)]
pub enum Error {
    /// The source of the bytes itself failed.
    IoError(std::io::Error),
    /// The bytes ended before the number did.
    UnexpectedEndOfData,
    /// The number does not fit in 64 bits.
    Overflow,
}

impl From<std::io::Error> for Error {
    fn from(e: std::io::Error) -> (err: Error) {
        Error::IoError(e)
    }
}

impl FromSpecImpl<std::io::Error> for Error {
    open spec fn obeys_from_spec() -> bool {
        true
    }

    open spec fn from_spec(e: std::io::Error) -> Error {
        Error::IoError(e)
    }
}

impl Error {
    /// Whether `text` says what went wrong: for a failure of input or
    /// output, what the failure shows of itself; for the other two, a
    /// sentence of this library.
    pub open spec fn described_by(&self, text: String) -> bool {
        match *self {
            Error::IoError(e) => vstd::string::to_string_from_display_ensures::<std::io::Error>(
                &e,
                text,
            ),
            Error::UnexpectedEndOfData => text@ == "Unexpected end of data while reading"@,
            Error::Overflow => text@
                == "The number being read is larger than can be represented"@,
        }
    }

    /// What went wrong, in words.
    pub fn description(&self) -> (text: String)
        ensures
            self.described_by(text),
    {
        match self {
            Error::IoError(e) => e.to_string(),
            Error::UnexpectedEndOfData => String::from_str("Unexpected end of data while reading"),
            Error::Overflow => String::from_str(
                "The number being read is larger than can be represented",
            ),
        }
    }

    /// The failure of input or output underneath this error, where there is one.
    pub fn cause(&self) -> (source: Option<&std::io::Error>)
        ensures
            match *self {
                Error::IoError(e) => source == Some(&e),
                _ => source is None,
            },
    {
        match self {
            Error::IoError(e) => Some(e),
            _ => None,
        }
    }

    /// The error as one line of text: the name of this error type, then
    /// what went wrong.
    pub fn message(&self) -> (text: String)
        ensures
            exists|what: String|
                self.described_by(what) && text@ == "leb128::read::Error: "@ + what@,
    {
        let what = self.description();
        String::from_str("leb128::read::Error: ").concat(what.as_str())
    }
}

/// A number of which some bytes have been read, and the last of them asked
/// for more.
pub struct Reading {
    acc: u64,
    shift: u32,
    seen: Ghost<Seq<u8>>,
}

/// Where the reading of a number stands after one more byte.
pub enum State<T> {
    /// The byte asked for another.
    Reading(Reading),
    /// The byte was the last: the number is complete.
    Done(T),
}

impl Reading {
    /// The bytes read so far.
    pub closed spec fn view(&self) -> Seq<u8> {
        self.seen@
    }

    #[verifier::type_invariant]
    spec fn well_formed(&self) -> bool {
        &&& self.seen@.len() <= 10
        &&& self.shift == 7 * self.seen@.len()
        &&& self.acc == magnitude(self.seen@)
        &&& forall|j: int|
            0 <= j < self.seen@.len() ==> continues(#[trigger] self.seen@[j]) && fits(
                j as nat,
                self.seen@[j],
            )
    }

    /// The state before the first byte.
    pub fn new() -> (start: Reading)
        ensures
            start@ == Seq::<u8>::empty(),
    {
        Reading { acc: 0, shift: 0, seen: Ghost(Seq::empty()) }
    }

    /// Adds the payload of `byte` above the digits read so far, if it fits.
    fn add(&self, byte: u8) -> (sum: Option<u64>)
        ensures
            sum is Some <==> fits(self@.len(), byte),
            sum is Some ==> sum->0 == magnitude(self@.push(byte)) && self@.len() <= 9,
    {
        proof {
            use_type_invariant(self);
        }
        let low_bits: u64 = low_bits_of_byte(byte) as u64;
        proof {
            lemma_leading_zeros(low_bits);
        }
        if low_bits.leading_zeros() < self.shift {
            return None;
        }
        let shift: u64 = self.shift as u64;
        proof {
            lemma_magnitude_push(self.seen@, byte);
            lemma_magnitude_below(self.seen@);
            lemma_bit_length_le(low_bits as nat, (64 - shift) as nat);
            lemma_pow2_adds((64 - shift) as nat, shift as nat);
            lemma2_to64_rest();
            assert(low_bits * pow2(shift as nat) <= u64::MAX) by (nonlinear_arith)
                requires
                    low_bits < pow2((64 - shift) as nat),
                    pow2((64 - shift) as nat) * pow2(shift as nat) == 0x1_0000_0000_0000_0000,
            ;
            lemma_u64_shl_is_mul(low_bits, shift);
            lemma_u64_shr_is_div(self.acc, shift);
            assert(self.acc >> shift == 0) by (nonlinear_arith)
                requires
                    self.acc >> shift == self.acc as nat / pow2(shift as nat),
                    self.acc < pow2(shift as nat),
            ;
            let acc = self.acc;
            assert(acc | (low_bits << shift) == acc + (low_bits << shift)) by (bit_vector)
                requires
                    shift < 64,
                    acc >> shift == 0,
            ;
        }
        Some(self.acc | (low_bits << shift))
    }

    /// Takes the reading one byte further: `fetched` is the next byte of the
    /// source, or `None` where the source has no more. This is the
    /// reading of an unsigned number.
    pub fn next_unsigned(self, fetched: Option<u8>) -> (next: Result<State<u64>, Error>)
        ensures
            match fetched {
                None => next == Err::<State<u64>, Error>(Error::UnexpectedEndOfData),
                Some(b) => if !fits(self@.len(), b) {
                    next == Err::<State<u64>, Error>(Error::Overflow)
                } else if continues(b) {
                    next matches Ok(State::Reading(r)) && r@ == self@.push(b)
                } else {
                    next matches Ok(State::Done(v)) && v == magnitude(self@.push(b))
                },
            },
    {
        let byte: u8 = match fetched {
            None => {
                return Err(Error::UnexpectedEndOfData);
            },
            Some(b) => b,
        };
        let sum: u64 = match self.add(byte) {
            None => {
                return Err(Error::Overflow);
            },
            Some(s) => s,
        };
        proof {
            use_type_invariant(&self);
        }
        assert(byte & 0x80 == 0 <==> byte < 128) by (bit_vector);
        if byte & CONTINUATION_BIT == 0 {
            Ok(State::Done(sum))
        } else {
            Ok(
                State::Reading(
                    Reading { acc: sum, shift: self.shift + 7, seen: Ghost(self.seen@.push(byte)) },
                ),
            )
        }
    }

    /// Takes the reading one byte further: `fetched` is the next byte of the
    /// source, or `None` where the source has no more. This is the
    /// reading of a signed number.
    pub fn next_signed(self, fetched: Option<u8>) -> (next: Result<State<i64>, Error>)
        ensures
            match fetched {
                None => next == Err::<State<i64>, Error>(Error::UnexpectedEndOfData),
                Some(b) => if !fits(self@.len(), b) {
                    next == Err::<State<i64>, Error>(Error::Overflow)
                } else if continues(b) {
                    next matches Ok(State::Reading(r)) && r@ == self@.push(b)
                } else {
                    next matches Ok(State::Done(v)) && v == signed_value(self@.push(b))
                },
            },
    {
        let byte: u8 = match fetched {
            None => {
                return Err(Error::UnexpectedEndOfData);
            },
            Some(b) => b,
        };
        let sum: u64 = match self.add(byte) {
            None => {
                return Err(Error::Overflow);
            },
            Some(s) => s,
        };
        proof {
            use_type_invariant(&self);
        }
        let shift: u32 = self.shift + 7;
        assert(byte & 0x80 == 0 <==> byte < 128) by (bit_vector);
        if byte & CONTINUATION_BIT != 0 {
            return Ok(
                State::Reading(Reading { acc: sum, shift, seen: Ghost(self.seen@.push(byte)) }),
            );
        }
        let mut bits: u64 = sum;
        if shift < 64 && (byte & SIGN_BIT) == SIGN_BIT {
            bits = bits | (u64::MAX << shift);
        }
        proof {
            let groups = self.seen@.push(byte);
            let width: u64 = shift as u64;
            assert(groups.last() == byte);
            assert((byte & 0x40 == 0x40) <==> byte % 128 >= 64) by (bit_vector);
            lemma_magnitude_below(groups);
            if width < 64 {
                lemma_u64_shr_is_div(sum, width);
                assert(sum >> width == 0) by (nonlinear_arith)
                    requires
                        sum >> width == sum as nat / pow2(width as nat),
                        sum < pow2(width as nat),
                ;
                lemma_u64_pow2_no_overflow(width as nat);
                lemma_u64_shl_is_mul(1, width);
                assert(((sum | (0xffff_ffff_ffff_ffffu64 << width)) as i64) == sum - (1u64
                    << width)) by (bit_vector)
                    requires
                        width < 64,
                        sum >> width == 0,
                ;
                assert((sum as i64) == sum) by (bit_vector)
                    requires
                        width < 64,
                        sum >> width == 0,
                ;
            } else {
                assert((sum as i64) == if sum >= 0x8000_0000_0000_0000 {
                    sum - 0x1_0000_0000_0000_0000
                } else {
                    sum as int
                }) by (bit_vector);
            }
        }
        Ok(State::Done(#[verifier::truncate] (bits as i64)))
    }
}

/// What a read into a buffer of one byte brought, given what the read
/// returned and the byte in the buffer after it: the byte, where exactly one
/// byte was read; the end of the data, where any other number was; and the
/// failure of the source, unchanged, where the read failed. A read that
/// brings nothing is the end, not a reason to ask again.
pub fn fetched(read: Result<usize, std::io::Error>, byte: u8) -> (next: Result<Option<u8>, Error>)
    ensures
        next == match read {
            Ok(count) => Ok::<Option<u8>, Error>(
                if count == 1 {
                    Some(byte)
                } else {
                    None
                },
            ),
            Err(e) => Err::<Option<u8>, Error>(Error::IoError(e)),
        },
{
    match read {
        Ok(count) => if count == 1 {
            Ok(Some(byte))
        } else {
            Ok(None)
        },
        Err(e) => Err(Error::from(e)),
    }
}

/// Takes the first byte off `r`, if there is one.
fn take_byte(r: &mut &[u8]) -> (first: Option<u8>)
    ensures
        old(r)@.len() == 0 ==> first is None && final(r)@ == old(r)@,
        old(r)@.len() > 0 ==> first == Some(old(r)@[0]) && final(r)@ == old(r)@.skip(1),
{
    let bytes: &[u8] = *r;
    if bytes.len() == 0 {
        None
    } else {
        let first: u8 = bytes[0];
        *r = vstd::slice::slice_subrange(bytes, 1, bytes.len());
        Some(first)
    }
}

/// What reading one unsigned number from the front of `s` gives.
///
/// Where the front of `s` is a complete encoding, it is the number that its
/// payloads spell. Where a payload does not fit in 64 bits, it is
/// `Overflow`; where `s` ends before the number does, `UnexpectedEndOfData`.
pub open spec fn decoded_unsigned(s: Seq<u8>) -> Result<u64, Error> {
    match scan(s) {
        Scan::Complete { len } => Ok(magnitude(s.take(len as int)) as u64),
        Scan::Overflow { .. } => Err(Error::Overflow),
        Scan::Truncated => Err(Error::UnexpectedEndOfData),
    }
}

/// What reading one signed number from the front of `s` gives.
///
/// Where the front of `s` is a complete encoding, it is the signed number
/// that the encoding stands for. Where a payload does not fit in 64 bits, it
/// is `Overflow`; where `s` ends before the number does, `UnexpectedEndOfData`.
pub open spec fn decoded_signed(s: Seq<u8>) -> Result<i64, Error> {
    match scan(s) {
        Scan::Complete { len } => Ok(signed_value(s.take(len as int)) as i64),
        Scan::Overflow { .. } => Err(Error::Overflow),
        Scan::Truncated => Err(Error::UnexpectedEndOfData),
    }
}

/// The bytes of `s` that the reading of one number leaves unread: those
/// behind the complete encoding, or behind the byte that did not fit, or
/// none where `s` ended too early.
pub open spec fn remainder(s: Seq<u8>) -> Seq<u8> {
    match scan(s) {
        Scan::Complete { len } => s.skip(len as int),
        Scan::Overflow { len } => s.skip(len as int),
        Scan::Truncated => Seq::empty(),
    }
}

/// Reads one unsigned number from the front of `r` and moves `r` past the
/// bytes that were read.
pub fn unsigned(r: &mut &[u8]) -> (res: Result<u64, Error>)
    ensures
        res == decoded_unsigned(old(r)@),
        final(r)@ == remainder(old(r)@),
{
    let mut state = Reading::new();
    loop
        invariant
            state@.len() <= old(r)@.len(),
            state@ == old(r)@.take(state@.len() as int),
            r@ == old(r)@.skip(state@.len() as int),
            scan_from(old(r)@, state@.len()) == scan(old(r)@),
        decreases r@.len(),
    {
        let ghost seen = state@;
        let fetched = take_byte(r);
        match state.next_unsigned(fetched) {
            Ok(State::Reading(next)) => {
                assert(next@ =~= old(r)@.take(next@.len() as int));
                assert(r@ =~= old(r)@.skip(next@.len() as int));
                state = next;
            },
            Ok(State::Done(v)) => {
                assert(seen.push(fetched->0) =~= old(r)@.take(seen.len() as int + 1));
                assert(r@ =~= old(r)@.skip(seen.len() as int + 1));
                return Ok(v);
            },
            Err(e) => {
                assert(r@ =~= if fetched is Some {
                    old(r)@.skip(seen.len() as int + 1)
                } else {
                    Seq::<u8>::empty()
                });
                return Err(e);
            },
        }
    }
}

/// Reads one signed number from the front of `r` and moves `r` past the
/// bytes that were read.
pub fn signed(r: &mut &[u8]) -> (res: Result<i64, Error>)
    ensures
        res == decoded_signed(old(r)@),
        final(r)@ == remainder(old(r)@),
{
    let mut state = Reading::new();
    loop
        invariant
            state@.len() <= old(r)@.len(),
            state@ == old(r)@.take(state@.len() as int),
            r@ == old(r)@.skip(state@.len() as int),
            scan_from(old(r)@, state@.len()) == scan(old(r)@),
        decreases r@.len(),
    {
        let ghost seen = state@;
        let fetched = take_byte(r);
        match state.next_signed(fetched) {
            Ok(State::Reading(next)) => {
                assert(next@ =~= old(r)@.take(next@.len() as int));
                assert(r@ =~= old(r)@.skip(next@.len() as int));
                state = next;
            },
            Ok(State::Done(v)) => {
                assert(seen.push(fetched->0) =~= old(r)@.take(seen.len() as int + 1));
                assert(r@ =~= old(r)@.skip(seen.len() as int + 1));
                return Ok(v);
            },
            Err(e) => {
                assert(r@ =~= if fetched is Some {
                    old(r)@.skip(seen.len() as int + 1)
                } else {
                    Seq::<u8>::empty()
                });
                return Err(e);
            },
        }
    }
}

} // verus!
