//! What holds of the format as a whole: how long an encoding is, that
//! reading gives back what was written, that no shorter sequence of bytes
//! reads as the same number, and how reading fails.

use vstd::arithmetic::power2::{lemma2_to64, lemma2_to64_rest, lemma_pow2_adds, pow2};
use vstd::prelude::*;
use crate::arith::{
    lemma_bit_length_drop7, lemma_bit_length_le, lemma_bit_length_monotonic,
    lemma_bit_length_small, lemma_bit_length_u64, lemma_pow2_below_63,
};
use crate::read::{decoded_signed, decoded_unsigned, remainder, Error};
use crate::wire::{
    asks_on, bit_length, continues, fits, lemma_magnitude_below, lemma_magnitude_push,
    lemma_scan_asks_on, lemma_scan_complete, lemma_scan_overflow, lemma_scan_truncated, magnitude,
    payload, scan, scan_from, signed_bit_length, signed_encoding, signed_value, unsigned_encoding,
    Scan,
};

verus! {

/// The least signed number that comes back from its encoding: below it, the
/// tenth byte of the encoding carries seven sign bits, which do not fit.
pub const SIGNED_FLOOR: i64 = -0x4000_0000_0000_0000;

/// An unsigned number is written in as many bytes as its binary digits fill,
/// seven to a byte, and zero in one byte. That is never more than one byte
/// above the digits divided by seven and rounded up.
pub proof fn lemma_unsigned_encoding_len(v: nat)
    ensures
        unsigned_encoding(v).len() == if v == 0 {
            1
        } else {
            (bit_length(v) + 6) / 7
        },
        unsigned_encoding(v).len() <= (bit_length(v) + 6) / 7 + 1,
    decreases v,
{
    if v < 128 {
        lemma_bit_length_small(v);
    } else {
        lemma_unsigned_encoding_len(v / 128);
        lemma_bit_length_drop7(v);
    }
}

/// A signed number is written in as many bytes as its binary digits and one
/// sign bit fill, seven to a byte. That is never more than one byte above
/// the digits of its absolute value divided by seven and rounded up.
pub proof fn lemma_signed_encoding_len(v: int)
    ensures
        signed_encoding(v).len() == signed_bit_length(v) / 7 + 1,
        signed_encoding(v).len() <= (bit_length((if v >= 0 { v } else { -v }) as nat) + 6) / 7 + 1,
    decreases (if v >= 0 { v } else { -v }),
{
    let u: nat = if v >= 0 { v as nat } else { (-v - 1) as nat };
    if -64 <= v < 64 {
        lemma_bit_length_small(u);
    } else {
        lemma_signed_encoding_len(v / 128);
        lemma_bit_length_drop7(u);
        assert(v < 0 ==> -(v / 128) - 1 == u / 128);
    }
    if v < 0 {
        lemma_bit_length_monotonic(u, (-v) as nat);
    }
}

/// No unsigned 64-bit number takes more than ten bytes.
pub proof fn lemma_unsigned_encoding_len_max(v: u64)
    ensures
        1 <= unsigned_encoding(v as nat).len() <= 10,
{
    lemma_unsigned_encoding_len(v as nat);
    lemma_bit_length_u64(v as nat);
}

/// No signed 64-bit number takes more than ten bytes.
pub proof fn lemma_signed_encoding_len_max(v: i64)
    ensures
        1 <= signed_encoding(v as int).len() <= 10,
{
    let u: nat = if v >= 0 { v as nat } else { (-v - 1) as nat };
    lemma_signed_encoding_len(v as int);
    lemma_bit_length_u64(u);
}

/// The payloads of an unsigned encoding spell the number that was encoded.
pub proof fn lemma_unsigned_encoding_magnitude(v: nat)
    ensures
        magnitude(unsigned_encoding(v)) == v,
    decreases v,
{
    let e = unsigned_encoding(v);
    if v < 128 {
        assert(e.drop_first() =~= Seq::<u8>::empty());
        assert(magnitude(e.drop_first()) == 0);
    } else {
        lemma_unsigned_encoding_magnitude(v / 128);
        assert(e.drop_first() =~= unsigned_encoding(v / 128));
    }
}

/// The payloads of a signed encoding spell the number that was encoded,
/// in two's complement of as many bits as the encoding has payload bits.
pub proof fn lemma_signed_encoding_magnitude(v: int)
    ensures
        magnitude(signed_encoding(v)) == if v >= 0 {
            v
        } else {
            v + pow2(7 * signed_encoding(v).len())
        },
        payload(signed_encoding(v).last()) >= 64 <==> v < 0,
    decreases (if v >= 0 { v } else { -v }),
{
    let e = signed_encoding(v);
    lemma2_to64();
    if -64 <= v < 64 {
        assert(e.drop_first() =~= Seq::<u8>::empty());
        assert(magnitude(e.drop_first()) == 0);
    } else {
        let tail = signed_encoding(v / 128);
        lemma_signed_encoding_magnitude(v / 128);
        assert(e.drop_first() =~= tail);
        assert(e.last() == tail.last());
        assert(pow2(7 * e.len()) == 128 * pow2(7 * tail.len())) by {
            lemma_pow2_adds(7, 7 * tail.len());
            assert(7 + 7 * tail.len() == 7 * e.len());
        }
    }
}

/// Reading on from byte `i` of `s`, where the encoding of an unsigned number
/// begins that is small enough for its place, ends behind that encoding.
proof fn lemma_scan_unsigned_encoding(s: Seq<u8>, i: nat, v: nat)
    requires
        bit_length(v) + 7 * i <= 64,
        i + unsigned_encoding(v).len() <= s.len(),
        s.subrange(i as int, i as int + unsigned_encoding(v).len()) == unsigned_encoding(v),
    ensures
        scan_from(s, i) == (Scan::Complete { len: i + unsigned_encoding(v).len() }),
    decreases v,
{
    let e = unsigned_encoding(v);
    assert(s[i as int] == s.subrange(i as int, i as int + e.len())[0]);
    if v >= 128 {
        let tail = unsigned_encoding(v / 128);
        lemma_bit_length_small(v % 128);
        lemma_bit_length_drop7(v);
        assert(s.subrange(i as int + 1, i as int + 1 + tail.len()) =~= tail) by {
            assert forall|j: int| 0 <= j < tail.len() implies s[i + 1 + j] == tail[j] by {
                assert(s[i + 1 + j] == s.subrange(i as int, i as int + e.len())[j + 1]);
            }
        }
        lemma_scan_unsigned_encoding(s, i + 1, v / 128);
    }
}

/// Reading on from byte `i` of `s`, where the encoding of a signed number
/// begins that is small enough for its place, ends behind that encoding.
proof fn lemma_scan_signed_encoding(s: Seq<u8>, i: nat, v: int)
    requires
        signed_bit_length(v) + 7 * i <= (if v >= 0 { 63int } else { 62int }),
        i + signed_encoding(v).len() <= s.len(),
        s.subrange(i as int, i as int + signed_encoding(v).len()) == signed_encoding(v),
    ensures
        scan_from(s, i) == (Scan::Complete { len: i + signed_encoding(v).len() }),
    decreases (if v >= 0 { v } else { -v }),
{
    let e = signed_encoding(v);
    let u: nat = if v >= 0 { v as nat } else { (-v - 1) as nat };
    assert(s[i as int] == s.subrange(i as int, i as int + e.len())[0]);
    lemma_bit_length_small((v % 128) as nat);
    if -64 <= v < 64 {
        lemma_bit_length_small(u);
    } else {
        let tail = signed_encoding(v / 128);
        lemma_bit_length_drop7(u);
        assert(v < 0 ==> -(v / 128) - 1 == u / 128);
        assert(s.subrange(i as int + 1, i as int + 1 + tail.len()) =~= tail) by {
            assert forall|j: int| 0 <= j < tail.len() implies s[i + 1 + j] == tail[j] by {
                assert(s[i + 1 + j] == s.subrange(i as int, i as int + e.len())[j + 1]);
            }
        }
        lemma_scan_signed_encoding(s, i + 1, v / 128);
    }
}

/// Reading gives back the unsigned number that was written, whatever
/// follows its encoding, and leaves what follows unread.
pub proof fn lemma_unsigned_round_trip(v: u64, rest: Seq<u8>)
    ensures
        decoded_unsigned(unsigned_encoding(v as nat) + rest) == Ok::<u64, Error>(v),
        remainder(unsigned_encoding(v as nat) + rest) == rest,
{
    let e = unsigned_encoding(v as nat);
    let s = e + rest;
    lemma_bit_length_u64(v as nat);
    assert(s.subrange(0, e.len() as int) =~= e);
    lemma_scan_unsigned_encoding(s, 0, v as nat);
    assert(s.take(e.len() as int) =~= e);
    assert(s.skip(e.len() as int) =~= rest);
    lemma_unsigned_encoding_magnitude(v as nat);
}

/// Reading gives back the signed number that was written, whatever follows
/// its encoding, and leaves what follows unread: for every number from
/// `SIGNED_FLOOR` up.
pub proof fn lemma_signed_round_trip(v: i64, rest: Seq<u8>)
    requires
        v >= SIGNED_FLOOR,
    ensures
        decoded_signed(signed_encoding(v as int) + rest) == Ok::<i64, Error>(v),
        remainder(signed_encoding(v as int) + rest) == rest,
{
    let e = signed_encoding(v as int);
    let s = e + rest;
    let u: nat = if v >= 0 { v as nat } else { (-v - 1) as nat };
    lemma_bit_length_u64(u);
    assert(s.subrange(0, e.len() as int) =~= e);
    lemma_scan_signed_encoding(s, 0, v as int);
    assert(s.take(e.len() as int) =~= e);
    assert(s.skip(e.len() as int) =~= rest);
    lemma_signed_encoding_magnitude(v as int);
    lemma_signed_encoding_len(v as int);
    if 7 * e.len() >= 64 {
        assert(signed_bit_length(v as int) == 63);
    }
}

/// The encoding of a signed number below `SIGNED_FLOOR` does not read back:
/// its tenth byte does not fit, and reading ends there with `Overflow`.
pub proof fn lemma_signed_below_floor(v: i64, rest: Seq<u8>)
    requires
        v < SIGNED_FLOOR,
    ensures
        signed_encoding(v as int).len() == 10,
        decoded_signed(signed_encoding(v as int) + rest) == Err::<i64, Error>(Error::Overflow),
        remainder(signed_encoding(v as int) + rest) == rest,
{
    let e = signed_encoding(v as int);
    let s = e + rest;
    let u: nat = (-v - 1) as nat;
    lemma_bit_length_u64(u);
    lemma_signed_encoding_len(v as int);
    lemma_signed_encoding_magnitude(v as int);
    lemma_signed_prefix_continues(v as int);
    lemma_bit_length_small(payload(e[9]));
    assert forall|j: int| 0 <= j < 9 implies fits(j as nat, #[trigger] s[j]) && continues(
        s[j],
    ) by {
        lemma_bit_length_small(payload(s[j]));
    }
    lemma_scan_asks_on(s, 0, 9);
    assert(s.skip(10) =~= rest);
}

/// Every byte of an encoding but the last asks for more.
pub proof fn lemma_unsigned_prefix_continues(v: nat)
    ensures
        forall|j: int|
            0 <= j < unsigned_encoding(v).len() - 1 ==> continues(
                #[trigger] unsigned_encoding(v)[j],
            ),
        !continues(unsigned_encoding(v).last()),
    decreases v,
{
    if v >= 128 {
        lemma_unsigned_prefix_continues(v / 128);
        let e = unsigned_encoding(v);
        let tail = unsigned_encoding(v / 128);
        assert forall|j: int| 0 <= j < e.len() - 1 implies continues(#[trigger] e[j]) by {
            if j > 0 {
                assert(e[j] == tail[j - 1]);
            }
        }
        assert(e.last() == tail.last());
    }
}

/// Every byte of an encoding but the last asks for more.
pub proof fn lemma_signed_prefix_continues(v: int)
    ensures
        forall|j: int|
            0 <= j < signed_encoding(v).len() - 1 ==> continues(#[trigger] signed_encoding(v)[j]),
        !continues(signed_encoding(v).last()),
    decreases (if v >= 0 { v } else { -v }),
{
    if !(-64 <= v < 64) {
        lemma_signed_prefix_continues(v / 128);
        let e = signed_encoding(v);
        let tail = signed_encoding(v / 128);
        assert forall|j: int| 0 <= j < e.len() - 1 implies continues(#[trigger] e[j]) by {
            if j > 0 {
                assert(e[j] == tail[j - 1]);
            }
        }
        assert(e.last() == tail.last());
    }
}

/// A complete encoding has at most ten bytes, and what it spells lies within
/// 64 bits: the number that reading returns is the number that the bytes
/// stand for, never a part of it.
pub proof fn lemma_complete_within_64_bits(s: Seq<u8>, len: nat)
    requires
        scan(s) == (Scan::Complete { len }),
    ensures
        1 <= len <= 10,
        len <= s.len(),
        magnitude(s.take(len as int)) <= u64::MAX,
        i64::MIN <= signed_value(s.take(len as int)) <= i64::MAX,
        decoded_unsigned(s) matches Ok(v) && v == magnitude(s.take(len as int)),
        decoded_signed(s) matches Ok(v) && v == signed_value(s.take(len as int)),
{
    let groups = s.take(len as int);
    let last = groups.last();
    let before = groups.drop_last();
    lemma_scan_complete(s, 0, len);
    assert(fits((len - 1) as nat, s[len - 1]));
    assert(groups =~= before.push(last));
    lemma_magnitude_push(before, last);
    lemma_magnitude_below(before);
    lemma_magnitude_below(groups);
    lemma_bit_length_le(payload(last), (64 - 7 * before.len()) as nat);
    lemma_pow2_adds((64 - 7 * before.len()) as nat, 7 * before.len());
    lemma_pow2_adds(6, 7 * before.len());
    lemma_pow2_adds(7, 7 * before.len());
    lemma2_to64();
    lemma2_to64_rest();
    let low = pow2(7 * before.len());
    assert(payload(last) * low < 0x1_0000_0000_0000_0000) by (nonlinear_arith)
        requires
            payload(last) < pow2((64 - 7 * before.len()) as nat),
            pow2((64 - 7 * before.len()) as nat) * low == 0x1_0000_0000_0000_0000,
            low > 0,
    ;
    if len <= 9 {
        lemma_pow2_below_63(7 * len);
        if payload(last) >= 64 {
            assert(payload(last) * low >= 64 * low) by (nonlinear_arith)
                requires
                    payload(last) >= 64,
                    low > 0,
            ;
        } else {
            assert(payload(last) * low <= 63 * low) by (nonlinear_arith)
                requires
                    payload(last) <= 63,
                    low > 0,
            ;
        }
    } else {
        lemma_bit_length_small(payload(last));
        assert(payload(last) * low <= low) by (nonlinear_arith)
            requires
                payload(last) <= 1,
                low > 0,
        ;
    }
}

/// No sequence of bytes that reads as an unsigned number is shorter than the
/// encoding of that number.
pub proof fn lemma_unsigned_encoding_shortest(s: Seq<u8>, len: nat)
    requires
        scan(s) == (Scan::Complete { len }),
    ensures
        unsigned_encoding(magnitude(s.take(len as int))).len() <= len,
{
    let groups = s.take(len as int);
    lemma_scan_complete(s, 0, len);
    lemma_magnitude_below(groups);
    lemma_bit_length_le(magnitude(groups), 7 * len);
    lemma_unsigned_encoding_len(magnitude(groups));
}

/// No sequence of bytes that reads as a signed number is shorter than the
/// encoding of that number.
pub proof fn lemma_signed_encoding_shortest(s: Seq<u8>, len: nat)
    requires
        scan(s) == (Scan::Complete { len }),
    ensures
        signed_encoding(signed_value(s.take(len as int))).len() <= len,
{
    let groups = s.take(len as int);
    let v = signed_value(groups);
    let u: nat = if v >= 0 { v as nat } else { (-v - 1) as nat };
    lemma_complete_within_64_bits(s, len);
    lemma_signed_encoding_len(v);
    if len <= 9 {
        let last = groups.last();
        let before = groups.drop_last();
        let low = pow2(7 * before.len());
        assert(groups =~= before.push(last));
        lemma_magnitude_push(before, last);
        lemma_magnitude_below(before);
        lemma_magnitude_below(groups);
        lemma_pow2_adds(6, 7 * before.len());
        lemma_pow2_adds(7, 7 * before.len());
        lemma2_to64();
        assert(6 + 7 * before.len() == 7 * len - 1);
        if payload(last) >= 64 {
            assert(payload(last) * low >= 64 * low) by (nonlinear_arith)
                requires
                    payload(last) >= 64,
                    low > 0,
            ;
        } else {
            assert(payload(last) * low <= 63 * low) by (nonlinear_arith)
                requires
                    payload(last) <= 63,
                    low > 0,
            ;
        }
        assert(u < pow2((7 * len - 1) as nat));
        lemma_bit_length_le(u, (7 * len - 1) as nat);
    } else {
        lemma_bit_length_u64(u);
    }
}

/// A byte with its continuation bit set and nothing behind it reads as
/// `UnexpectedEndOfData`, as a signed number and as an unsigned one.
pub proof fn lemma_lone_continuation_byte(b: u8)
    requires
        continues(b),
    ensures
        decoded_unsigned(seq![b]) == Err::<u64, Error>(Error::UnexpectedEndOfData),
        decoded_signed(seq![b]) == Err::<i64, Error>(Error::UnexpectedEndOfData),
        remainder(seq![b]) == Seq::<u8>::empty(),
{
    lemma_bit_length_small(payload(b));
    assert(scan_from(seq![b], 1) is Truncated);
}

/// Reading ends with `UnexpectedEndOfData` exactly when every byte there
/// is fits and asks for more.
pub proof fn lemma_truncated_iff(s: Seq<u8>)
    ensures
        decoded_unsigned(s) == Err::<u64, Error>(Error::UnexpectedEndOfData) <==> asks_on(
            s,
            0,
            s.len(),
        ),
        decoded_signed(s) == Err::<i64, Error>(Error::UnexpectedEndOfData) <==> asks_on(
            s,
            0,
            s.len(),
        ),
{
    lemma_scan_truncated(s, 0);
}

/// An encoding cut short anywhere before its end reads as
/// `UnexpectedEndOfData`.
pub proof fn lemma_unsigned_cut_short(v: u64, k: nat)
    requires
        k < unsigned_encoding(v as nat).len(),
    ensures
        decoded_unsigned(unsigned_encoding(v as nat).take(k as int)) == Err::<u64, Error>(
            Error::UnexpectedEndOfData,
        ),
{
    let e = unsigned_encoding(v as nat);
    let cut = e.take(k as int);
    lemma_unsigned_encoding_len_max(v);
    lemma_unsigned_prefix_continues(v as nat);
    assert forall|j: int| 0 <= j < cut.len() implies fits(j as nat, #[trigger] cut[j])
        && continues(cut[j]) by {
        assert(cut[j] == e[j]);
        lemma_bit_length_small(payload(cut[j]));
    }
    lemma_scan_truncated(cut, 0);
}

/// An encoding cut short anywhere before its end reads as
/// `UnexpectedEndOfData`.
pub proof fn lemma_signed_cut_short(v: i64, k: nat)
    requires
        k < signed_encoding(v as int).len(),
    ensures
        decoded_signed(signed_encoding(v as int).take(k as int)) == Err::<i64, Error>(
            Error::UnexpectedEndOfData,
        ),
{
    let e = signed_encoding(v as int);
    let cut = e.take(k as int);
    lemma_signed_encoding_len_max(v);
    lemma_signed_prefix_continues(v as int);
    assert forall|j: int| 0 <= j < cut.len() implies fits(j as nat, #[trigger] cut[j])
        && continues(cut[j]) by {
        assert(cut[j] == e[j]);
        lemma_bit_length_small(payload(cut[j]));
    }
    lemma_scan_truncated(cut, 0);
}

/// Eleven bytes in a row that ask for more read as `Overflow`, whatever
/// their payloads and whatever follows: no number is made up from what fits.
pub proof fn lemma_long_run_overflows(s: Seq<u8>)
    requires
        s.len() >= 11,
        forall|j: int| 0 <= j < 11 ==> continues(#[trigger] s[j]),
    ensures
        decoded_unsigned(s) == Err::<u64, Error>(Error::Overflow),
        decoded_signed(s) == Err::<i64, Error>(Error::Overflow),
        remainder(s).len() >= s.len() - 11,
{
    match scan(s) {
        Scan::Complete { len } => {
            lemma_complete_within_64_bits(s, len);
            lemma_scan_complete(s, 0, len);
            assert(continues(s[len - 1]));
        },
        Scan::Overflow { len } => {
            lemma_scan_overflow(s, 0, len);
            if len > 11 {
                assert(fits(10, s[10]));
            }
        },
        Scan::Truncated => {
            lemma_scan_truncated(s, 0);
            assert(fits(10, s[10]));
        },
    }
}

/// Two unsigned numbers written one after the other read back one after
/// the other: the first reading stops where the second number begins.
pub proof fn lemma_unsigned_stream(a: u64, b: u64, rest: Seq<u8>)
    ensures
        ({
            let s = unsigned_encoding(a as nat) + unsigned_encoding(b as nat) + rest;
            &&& decoded_unsigned(s) == Ok::<u64, Error>(a)
            &&& decoded_unsigned(remainder(s)) == Ok::<u64, Error>(b)
            &&& remainder(remainder(s)) == rest
        }),
{
    let tail = unsigned_encoding(b as nat) + rest;
    let s = unsigned_encoding(a as nat) + unsigned_encoding(b as nat) + rest;
    assert(s =~= unsigned_encoding(a as nat) + tail);
    lemma_unsigned_round_trip(a, tail);
    lemma_unsigned_round_trip(b, rest);
}

/// Two signed numbers written one after the other read back one after the
/// other: the first reading stops where the second number begins.
pub proof fn lemma_signed_stream(a: i64, b: i64, rest: Seq<u8>)
    requires
        a >= SIGNED_FLOOR,
        b >= SIGNED_FLOOR,
    ensures
        ({
            let s = signed_encoding(a as int) + signed_encoding(b as int) + rest;
            &&& decoded_signed(s) == Ok::<i64, Error>(a)
            &&& decoded_signed(remainder(s)) == Ok::<i64, Error>(b)
            &&& remainder(remainder(s)) == rest
        }),
{
    let tail = signed_encoding(b as int) + rest;
    let s = signed_encoding(a as int) + signed_encoding(b as int) + rest;
    assert(s =~= signed_encoding(a as int) + tail);
    lemma_signed_round_trip(a, tail);
    lemma_signed_round_trip(b, rest);
}

} // verus!
