//! Decoding and encoding of ASCII hex digits.
//!
//! One decoded byte packs the nibble of the first digit of a pair into its
//! high four bits and the nibble of the second digit into its low four bits.

use vstd::prelude::*;

use crate::errors::Hex2BinError;

verus! {

/// An ASCII byte that is a hex digit: `0-9` (48..=57), `A-F` (65..=70) or
/// `a-f` (97..=102).
pub open spec fn is_hex_digit(b: u8) -> bool {
    (48 <= b && b <= 57) || (65 <= b && b <= 70) || (97 <= b && b <= 102)
}

/// The 4-bit value of a hex digit (meaningful only when `is_hex_digit(b)`).
pub open spec fn nibble_val(b: u8) -> u8 {
    if 48 <= b && b <= 57 {
        (b - 48) as u8
    } else if 65 <= b && b <= 70 {
        (b - 65 + 10) as u8
    } else {
        (b - 97 + 10) as u8
    }
}

/// The byte encoded by the digit pair `(hi, lo)`.
pub open spec fn byte_of_pair(hi: u8, lo: u8) -> u8 {
    (nibble_val(hi) * 16 + nibble_val(lo)) as u8
}

/// Every byte of `s` is a hex digit.
pub open spec fn all_hex_digits(s: Seq<u8>) -> bool {
    forall|i: int| 0 <= i < s.len() ==> #[trigger] is_hex_digit(s[i])
}

/// The binary decoding of an even-length hex digit string: byte `i` comes
/// from the digit pair at positions `2i` and `2i + 1`.
pub open spec fn decode_hex_seq(s: Seq<u8>) -> Seq<u8> {
    Seq::new(s.len() / 2, |i: int| byte_of_pair(s[2 * i], s[2 * i + 1]))
}

/// The uppercase hex digit whose value is `n` (meaningful only for `n < 16`).
pub open spec fn hex_digit_of(n: u8) -> u8 {
    if n < 10 {
        (48 + n) as u8
    } else {
        (55 + n) as u8
    }
}

/// The hex encoding of a byte string: byte `i` becomes the digits at
/// positions `2i` (its high nibble) and `2i + 1` (its low nibble).
pub open spec fn encode_hex_seq(b: Seq<u8>) -> Seq<u8> {
    Seq::new(
        b.len() * 2,
        |i: int|
            if i % 2 == 0 {
                hex_digit_of((b[i / 2] / 16) as u8)
            } else {
                hex_digit_of((b[i / 2] % 16) as u8)
            },
    )
}

/// Decodes one ASCII hex digit to its 4-bit value; any other byte is
/// malformed input.
pub fn hex_to_4bit(hex: u8) -> (r: Result<u8, Hex2BinError>)
    ensures
        is_hex_digit(hex) ==> r == Ok::<u8, Hex2BinError>(nibble_val(hex)),
        !is_hex_digit(hex) ==> r == Err::<u8, Hex2BinError>(Hex2BinError::MalformedHex),
{
    if 48 <= hex && hex <= 57 {
        Ok(hex - 48)
    } else if 65 <= hex && hex <= 70 {
        Ok(hex - 65 + 10)
    } else if 97 <= hex && hex <= 102 {
        Ok(hex - 97 + 10)
    } else {
        Err(Hex2BinError::MalformedHex)
    }
}

/// Encodes bytes back into uppercase ASCII hex, two digits per byte.
pub fn encode_hex(bytes: &[u8]) -> (r: Vec<u8>)
    ensures
        r@ == encode_hex_seq(bytes@),
{
    let mut out: Vec<u8> = Vec::new();
    let mut i: usize = 0;
    while i < bytes.len()
        invariant
            i <= bytes@.len(),
            out@ == encode_hex_seq(bytes@.subrange(0, i as int)),
        decreases bytes@.len() - i,
    {
        let b = *vstd::slice::slice_index_get(bytes, i);
        let hi = b / 16;
        let lo = b % 16;
        let d_hi = if hi < 10 { 48 + hi } else { 55 + hi };
        let d_lo = if lo < 10 { 48 + lo } else { 55 + lo };
        out.push(d_hi);
        out.push(d_lo);
        i = i + 1;
        proof {
            assert(out@ =~= encode_hex_seq(bytes@.subrange(0, i as int)));
        }
    }
    proof {
        assert(bytes@.subrange(0, bytes@.len() as int) =~= bytes@);
    }
    out
}

/// Encoding a value `n < 16` gives a hex digit that decodes back to `n`.
pub proof fn lemma_hex_digit_of_inverse(n: u8)
    requires
        n < 16,
    ensures
        is_hex_digit(hex_digit_of(n)),
        nibble_val(hex_digit_of(n)) == n,
{
}

/// Law: the hex encoding of any byte string is a valid, even-length hex
/// digit string, and decoding it recovers the original bytes.
pub proof fn lemma_decode_of_encode(b: Seq<u8>)
    ensures
        encode_hex_seq(b).len() == 2 * b.len(),
        all_hex_digits(encode_hex_seq(b)),
        decode_hex_seq(encode_hex_seq(b)) == b,
{
    let e = encode_hex_seq(b);
    assert forall|i: int| 0 <= i < e.len() implies #[trigger] is_hex_digit(e[i]) by {
        let n = if i % 2 == 0 { (b[i / 2] / 16) as u8 } else { (b[i / 2] % 16) as u8 };
        lemma_hex_digit_of_inverse(n);
    }
    assert forall|i: int| 0 <= i < b.len() implies #[trigger] decode_hex_seq(e)[i] == b[i] by {
        let hi = (b[i] / 16) as u8;
        let lo = (b[i] % 16) as u8;
        assert(e[2 * i] == hex_digit_of(hi));
        assert(e[2 * i + 1] == hex_digit_of(lo));
        lemma_hex_digit_of_inverse(hi);
        lemma_hex_digit_of_inverse(lo);
        assert(b[i] == hi * 16 + lo) by {
            vstd::arithmetic::div_mod::lemma_fundamental_div_mod(b[i] as int, 16);
        }
    }
    assert(decode_hex_seq(e) =~= b);
}

/// Law: decoding distributes over splitting an even-length string at an
/// even boundary, so decoding parts and concatenating equals decoding the
/// whole.
pub proof fn lemma_decode_split(s: Seq<u8>, mid: int)
    requires
        0 <= mid <= s.len(),
        mid % 2 == 0,
        s.len() % 2 == 0,
    ensures
        decode_hex_seq(s) == decode_hex_seq(s.subrange(0, mid)) + decode_hex_seq(
            s.subrange(mid, s.len() as int),
        ),
{
    let a = s.subrange(0, mid);
    let b = s.subrange(mid, s.len() as int);
    let both = decode_hex_seq(a) + decode_hex_seq(b);
    assert(both.len() == s.len() / 2);
    assert forall|i: int| 0 <= i < s.len() / 2 implies both[i] == #[trigger] decode_hex_seq(s)[i] by {
        if i < mid / 2 {
            assert(a[2 * i] == s[2 * i]);
            assert(a[2 * i + 1] == s[2 * i + 1]);
        } else {
            let j = i - mid / 2;
            assert(b[2 * j] == s[2 * i]);
            assert(b[2 * j + 1] == s[2 * i + 1]);
        }
    }
    assert(decode_hex_seq(s) =~= both);
}

/// Law: for every valid even-length hex string, decoding, re-encoding and
/// decoding again yields the same bytes as decoding once, and the decoding
/// has exactly half the input's length.
pub proof fn lemma_round_trip(s: Seq<u8>)
    requires
        s.len() % 2 == 0,
        all_hex_digits(s),
    ensures
        decode_hex_seq(encode_hex_seq(decode_hex_seq(s))) == decode_hex_seq(s),
        decode_hex_seq(s).len() == s.len() / 2,
{
    lemma_decode_of_encode(decode_hex_seq(s));
}

} // verus!
