//! The wire format as mathematics: what a sequence of bytes means, and which
//! sequence of bytes stands for a number.
//!
//! An encoded number is a run of bytes. Bit 7 of each byte says whether
//! another byte follows; bits 0 to 6 are one base-128 digit of the number,
//! the least significant digit first.

use vstd::arithmetic::power2::{lemma2_to64, lemma_pow2_adds, pow2};
use vstd::prelude::*;
use crate::arith::lemma_bit_length_small;

verus! {

/// The seven payload bits of an encoded byte, as a number below 128.
pub open spec fn payload(b: u8) -> nat {
    (b % 128) as nat
}

/// Whether the continuation bit of an encoded byte is set.
pub open spec fn continues(b: u8) -> bool {
    b >= 128
}

/// The number of binary digits of `v`: 0 for 0, and otherwise one more than
/// the position of the highest bit that is set.
pub open spec fn bit_length(v: nat) -> nat
    decreases v,
{
    if v == 0 {
        0
    } else {
        1 + bit_length(v / 2)
    }
}

/// The number of binary digits of a signed number below its sign: those of
/// `v` itself where it is not negative, those of its complement where it is.
pub open spec fn signed_bit_length(v: int) -> nat {
    if v >= 0 {
        bit_length(v as nat)
    } else {
        bit_length((-v - 1) as nat)
    }
}

/// Whether byte `b` can be the digit at position `index` of a 64-bit
/// number: the binary digits of its payload, moved up by seven places for
/// every digit before it, end at or below bit 63.
///
/// At positions 0 to 8 every payload fits; at position 9, the payloads 0
/// and 1; from position 10 on, none, not even the payload 0.
pub open spec fn fits(index: nat, b: u8) -> bool {
    bit_length(payload(b)) + 7 * index <= 64
}

/// The number that the payloads of `groups` spell in base 128, least
/// significant digit first.
pub open spec fn magnitude(groups: Seq<u8>) -> nat
    decreases groups.len(),
{
    if groups.len() == 0 {
        0
    } else {
        payload(groups[0]) + 128 * magnitude(groups.drop_first())
    }
}

/// The signed number that a complete encoding `groups` stands for.
///
/// With fewer than 64 payload bits, bit 6 of the last byte is the sign: where
/// it is set, every bit above the payload is set too. With 64 or more, the
/// low 64 bits are read as a two's complement number.
pub open spec fn signed_value(groups: Seq<u8>) -> int {
    let m = magnitude(groups) as int;
    let width = 7 * groups.len();
    if width < 64 {
        if payload(groups.last()) >= 64 {
            m - pow2(width)
        } else {
            m
        }
    } else {
        if m >= 0x8000_0000_0000_0000 {
            m - 0x1_0000_0000_0000_0000
        } else {
            m
        }
    }
}

/// How the reading of one number from the front of a byte sequence ends.
pub enum Scan {
    /// The first `len` bytes are a complete encoding: each of them fits, and
    /// the last of them is the first byte without a continuation bit.
    Complete { len: nat },
    /// The first `len - 1` bytes fit and ask for more; the payload of byte
    /// `len - 1` does not fit.
    Overflow { len: nat },
    /// Every byte fits and asks for more: the sequence ends before the number does.
    Truncated,
}

/// Reads on from byte `i` of `s`, the bytes before it being digits that
/// fit and ask for more.
pub open spec fn scan_from(s: Seq<u8>, i: nat) -> Scan
    decreases s.len() - i,
{
    if i >= s.len() {
        Scan::Truncated
    } else if !fits(i, s[i as int]) {
        Scan::Overflow { len: i + 1 }
    } else if !continues(s[i as int]) {
        Scan::Complete { len: i + 1 }
    } else {
        scan_from(s, i + 1)
    }
}

/// How the reading of one number from the front of `s` ends. Each byte in
/// turn is first asked for, then held against the 64 bits, and only then
/// looked at for its continuation bit: a last byte that does not fit is an
/// overflow, and a missing byte is the end whatever came before.
pub open spec fn scan(s: Seq<u8>) -> Scan {
    scan_from(s, 0)
}

/// The bytes that stand for the unsigned number `v`: its base-128 digits,
/// least significant first, the continuation bit set on all but the last.
pub open spec fn unsigned_encoding(v: nat) -> Seq<u8>
    decreases v,
{
    if v < 128 {
        seq![v as u8]
    } else {
        seq![(128 + v % 128) as u8] + unsigned_encoding(v / 128)
    }
}

/// The bytes that stand for the signed number `v`: the base-128 digits of its
/// two's complement form, least significant first, ending with the first
/// digit whose bit 6 is the sign of everything above it.
pub open spec fn signed_encoding(v: int) -> Seq<u8>
    decreases (if v >= 0 { v } else { -v }),
{
    if -64 <= v < 64 {
        seq![(v % 128) as u8]
    } else {
        seq![(128 + v % 128) as u8] + signed_encoding(v / 128)
    }
}

/// Which bytes fit where: at positions 0 to 8 every byte, at position 9
/// those with the payload 0 or 1, and from position 10 on none.
pub proof fn lemma_fits(index: nat, b: u8)
    ensures
        fits(index, b) <==> index <= 8 || (index == 9 && payload(b) <= 1),
{
    lemma_bit_length_small(payload(b));
}

/// One more byte adds its payload above the digits before it.
pub proof fn lemma_magnitude_push(groups: Seq<u8>, b: u8)
    ensures
        magnitude(groups.push(b)) == magnitude(groups) + payload(b) * pow2(7 * groups.len()),
    decreases groups.len(),
{
    lemma2_to64();
    let longer = groups.push(b);
    assert(magnitude(longer) == payload(longer[0]) + 128 * magnitude(longer.drop_first()));
    if groups.len() == 0 {
        assert(longer.drop_first() =~= groups);
        assert(payload(b) * 1 == payload(b));
    } else {
        let tail = groups.drop_first();
        let high = pow2(7 * tail.len());
        let top = payload(b) * high;
        lemma_magnitude_push(tail, b);
        assert(longer.drop_first() =~= tail.push(b));
        assert(magnitude(tail.push(b)) == magnitude(tail) + top);
        assert(magnitude(groups) == payload(groups[0]) + 128 * magnitude(tail));
        assert(magnitude(longer) == magnitude(groups) + 128 * top);
        assert(pow2(7 * groups.len()) == 128 * high) by {
            lemma_pow2_adds(7, 7 * tail.len());
            assert(7 + 7 * tail.len() == 7 * groups.len());
        }
        assert(128 * top == payload(b) * (128 * high)) by (nonlinear_arith)
            requires
                top == payload(b) * high,
        ;
    }
}

/// Digits of seven bits spell a number of no more than seven bits apiece.
pub proof fn lemma_magnitude_below(groups: Seq<u8>)
    ensures
        magnitude(groups) < pow2(7 * groups.len()),
    decreases groups.len(),
{
    lemma2_to64();
    if groups.len() > 0 {
        let tail = groups.drop_first();
        lemma_magnitude_below(tail);
        lemma_pow2_adds(7, 7 * tail.len());
    }
}

/// Whether the bytes of `s` from `i` up to, not including, `end` all fit
/// and ask for more.
pub open spec fn asks_on(s: Seq<u8>, i: nat, end: nat) -> bool {
    forall|j: int| i <= j < end ==> fits(j as nat, #[trigger] s[j]) && continues(s[j])
}

/// Over bytes that fit and ask for more, reading goes on behind them.
pub proof fn lemma_scan_asks_on(s: Seq<u8>, i: nat, end: nat)
    requires
        i <= end <= s.len(),
        asks_on(s, i, end),
    ensures
        scan_from(s, i) == scan_from(s, end),
    decreases end - i,
{
    if i < end {
        assert(fits(i, s[i as int]) && continues(s[i as int]));
        lemma_scan_asks_on(s, i + 1, end);
    }
}

/// The reading ends as `Scan::Complete` with `len` exactly when byte
/// `len - 1` is there, fits and does not ask for more, and every byte
/// before it fits and asks for more.
pub proof fn lemma_scan_complete(s: Seq<u8>, i: nat, len: nat)
    ensures
        scan_from(s, i) == (Scan::Complete { len }) <==> {
            &&& i < len <= s.len()
            &&& asks_on(s, i, (len - 1) as nat)
            &&& fits((len - 1) as nat, s[len - 1])
            &&& !continues(s[len - 1])
        },
    decreases s.len() - i,
{
    if i < s.len() {
        let here = fits(i, s[i as int]) && continues(s[i as int]);
        if here {
            lemma_scan_complete(s, i + 1, len);
        }
        if i + 1 < len <= s.len() && asks_on(s, i, (len - 1) as nat) {
            assert(fits(i, s[i as int]) && continues(s[i as int]));
            assert(asks_on(s, i + 1, (len - 1) as nat));
        }
        if i + 1 < len <= s.len() && here && asks_on(s, i + 1, (len - 1) as nat) {
            assert(asks_on(s, i, (len - 1) as nat));
        }
    }
}

/// The reading ends as `Scan::Overflow` with `len` exactly when byte
/// `len - 1` is there and does not fit, and every byte before it fits and
/// asks for more.
pub proof fn lemma_scan_overflow(s: Seq<u8>, i: nat, len: nat)
    ensures
        scan_from(s, i) == (Scan::Overflow { len }) <==> {
            &&& i < len <= s.len()
            &&& asks_on(s, i, (len - 1) as nat)
            &&& !fits((len - 1) as nat, s[len - 1])
        },
    decreases s.len() - i,
{
    if i < s.len() {
        let here = fits(i, s[i as int]) && continues(s[i as int]);
        if here {
            lemma_scan_overflow(s, i + 1, len);
        }
        if i + 1 < len <= s.len() && asks_on(s, i, (len - 1) as nat) {
            assert(fits(i, s[i as int]) && continues(s[i as int]));
            assert(asks_on(s, i + 1, (len - 1) as nat));
        }
        if i + 1 < len <= s.len() && here && asks_on(s, i + 1, (len - 1) as nat) {
            assert(asks_on(s, i, (len - 1) as nat));
        }
    }
}

/// The reading ends as `Scan::Truncated` exactly when every byte from `i`
/// on fits and asks for more.
pub proof fn lemma_scan_truncated(s: Seq<u8>, i: nat)
    ensures
        scan_from(s, i) is Truncated <==> asks_on(s, i, s.len()),
    decreases s.len() - i,
{
    if i < s.len() {
        lemma_scan_truncated(s, i + 1);
        if fits(i, s[i as int]) && continues(s[i as int]) {
        } else {
            assert(!asks_on(s, i, s.len()));
        }
    }
}

} // verus!
