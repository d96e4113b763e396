//! Hexadecimal codec: lowercase hex text to bytes and back.
//!
//! Encoding emits two lowercase hex digits per byte, high nibble first.
//! Decoding consumes the text two digits at a time and fails fast with
//! [`HexError`] on any character outside `0-9a-f` (uppercase digits are
//! rejected) and on odd-length input, whose final pair is incomplete.
use vstd::prelude::*;

use crate::ascii::ascii_chars;
use crate::ascii::ascii_to_string;

verus! {

/// Error returned when hex decoding meets a character outside `0-9a-f`
/// or an input whose length is odd. It carries no detail; the decode
/// aborts with no partial result.
#[derive(Debug)]
pub struct HexError;

/// True exactly of the sixteen lowercase hex digit characters.
pub open spec fn is_hex_digit(c: char) -> bool {
    (0x30 <= c as u32 && c as u32 <= 0x39) || (0x61 <= c as u32 && c as u32 <= 0x66)
}

/// The value (0..16) of a lowercase hex digit character.
pub open spec fn hex_digit_val(c: char) -> u8
    recommends
        is_hex_digit(c),
{
    if c as u32 <= 0x39 {
        (c as u32 - 0x30) as u8
    } else {
        (c as u32 - 0x57) as u8
    }
}

/// The ASCII code of the lowercase hex digit for a nibble value.
pub open spec fn nibble_code(n: u8) -> u8
    recommends
        n < 16,
{
    if n < 10 {
        (0x30 + n) as u8
    } else {
        (0x57 + n) as u8
    }
}

/// The lowercase hex digit character for a nibble value.
pub open spec fn nibble_char(n: u8) -> char
    recommends
        n < 16,
{
    nibble_code(n) as char
}

/// The ASCII codes of the hex encoding of a byte sequence: two digits per
/// byte, high nibble first.
pub open spec fn hex_codes(bytes: Seq<u8>) -> Seq<u8> {
    Seq::new(
        bytes.len() * 2,
        |i: int|
            if i % 2 == 0 {
                nibble_code(bytes[i / 2] >> 4)
            } else {
                nibble_code(bytes[i / 2] & 0xf)
            },
    )
}

/// The hex encoding of a byte sequence as a character sequence.
pub open spec fn hex_of(bytes: Seq<u8>) -> Seq<char> {
    ascii_chars(hex_codes(bytes))
}

/// The bytes spelled by a sequence of hex digit characters, two digits per
/// byte.
pub open spec fn bytes_of_hex(s: Seq<char>) -> Seq<u8>
    recommends
        s.len() % 2 == 0,
        forall|i: int| 0 <= i < s.len() ==> is_hex_digit(s[i]),
{
    Seq::new(
        s.len() / 2,
        |i: int| (hex_digit_val(s[2 * i]) * 16 + hex_digit_val(s[2 * i + 1])) as u8,
    )
}

/// Both nibbles of a byte are below 16.
proof fn lemma_nibble_bounds(b: u8)
    by (bit_vector)
    ensures
        b >> 4 < 16,
        b & 0xf < 16,
{
}

/// A byte is rebuilt from its high and low nibbles.
proof fn lemma_nibble_split(b: u8)
    by (bit_vector)
    ensures
        (b >> 4) * 16 + (b & 0xf) == b,
{
}

/// The hex digit of a nibble value is a lowercase hex digit that maps back
/// to that value.
proof fn lemma_nibble_char(n: u8)
    requires
        n < 16,
    ensures
        nibble_code(n) < 0x80,
        is_hex_digit(nibble_char(n)),
        hex_digit_val(nibble_char(n)) == n,
{
}

/// Hex encoding produces only ASCII codes.
proof fn lemma_hex_codes_ascii(bytes: Seq<u8>)
    ensures
        forall|i: int| 0 <= i < hex_codes(bytes).len() ==> hex_codes(bytes)[i] < 0x80,
{
    assert forall|i: int| 0 <= i < hex_codes(bytes).len() implies hex_codes(bytes)[i]
        < 0x80 by {
        let b = bytes[i / 2];
        lemma_nibble_bounds(b);
        if i % 2 == 0 {
            lemma_nibble_char(b >> 4);
        } else {
            lemma_nibble_char(b & 0xf);
        }
    }
}

/// Round trip: the hex encoding of any byte sequence has even length
/// (twice the input's), consists only of lowercase hex digits, and decodes
/// back to the original bytes.
pub proof fn lemma_hex_round_trip(bytes: Seq<u8>)
    ensures
        hex_of(bytes).len() == 2 * bytes.len(),
        hex_of(bytes).len() % 2 == 0,
        forall|i: int| 0 <= i < hex_of(bytes).len() ==> is_hex_digit(hex_of(bytes)[i]),
        bytes_of_hex(hex_of(bytes)) == bytes,
{
    let h = hex_of(bytes);
    assert forall|i: int| 0 <= i < h.len() implies is_hex_digit(h[i]) by {
        let b = bytes[i / 2];
        lemma_nibble_bounds(b);
        if i % 2 == 0 {
            lemma_nibble_char(b >> 4);
        } else {
            lemma_nibble_char(b & 0xf);
        }
    }
    assert forall|i: int| 0 <= i < bytes.len() implies bytes_of_hex(h)[i] == bytes[i] by {
        let b = bytes[i];
        lemma_nibble_bounds(b);
        lemma_nibble_char(b >> 4);
        lemma_nibble_char(b & 0xf);
        assert(h[2 * i] == nibble_char(b >> 4));
        assert(h[2 * i + 1] == nibble_char(b & 0xf));
        lemma_nibble_split(b);
    }
    assert(bytes_of_hex(h) =~= bytes);
}

/// The hex codec maps the empty sequence to the empty sequence, both ways.
pub proof fn lemma_hex_empty()
    ensures
        hex_of(Seq::<u8>::empty()) == Seq::<char>::empty(),
        bytes_of_hex(Seq::<char>::empty()) == Seq::<u8>::empty(),
{
    assert(hex_of(Seq::<u8>::empty()) =~= Seq::<char>::empty());
    assert(bytes_of_hex(Seq::<char>::empty()) =~= Seq::<u8>::empty());
}

/// Maps a lowercase hex digit character to its value; any other character
/// is a `HexError`.
fn hex_digit(c: char) -> (r: Result<u8, HexError>)
    ensures
        r is Ok <==> is_hex_digit(c),
        r matches Ok(v) ==> v == hex_digit_val(c) && v < 16,
{
    let u = c as u32;
    if 0x30 <= u && u <= 0x39 {
        Ok((u - 0x30) as u8)
    } else if 0x61 <= u && u <= 0x66 {
        Ok((u - 0x57) as u8)
    } else {
        Err(HexError)
    }
}

/// Decodes lowercase hex text into bytes, two digits per byte.
///
/// Succeeds exactly when the input's length is even and every character is
/// a lowercase hex digit; otherwise fails fast with [`HexError`] and no
/// partial result.
pub fn hex_to_bytes(hex: &String) -> (r: Result<Vec<u8>, HexError>)
    ensures
        r is Ok <==> (hex@.len() % 2 == 0 && forall|i: int|
            0 <= i < hex@.len() ==> is_hex_digit(hex@[i])),
        r matches Ok(b) ==> b@ == bytes_of_hex(hex@),
{
    let s = hex.as_str();
    let n = s.unicode_len();
    if n % 2 != 0 {
        return Err(HexError);
    }
    let mut out: Vec<u8> = Vec::new();
    let mut i: usize = 0;
    while i < n
        invariant
            n == hex@.len(),
            n % 2 == 0,
            i % 2 == 0,
            i <= n,
            s@ == hex@,
            out@.len() == i / 2,
            forall|k: int| 0 <= k < i ==> is_hex_digit(hex@[k]),
            forall|j: int|
                0 <= j < out@.len() ==> out@[j] == (hex_digit_val(hex@[2 * j]) * 16
                    + hex_digit_val(hex@[2 * j + 1])) as u8,
        decreases n - i,
    {
        let c0 = s.get_char(i);
        let c1 = s.get_char(i + 1);
        let hi = match hex_digit(c0) {
            Ok(v) => v,
            Err(e) => { return Err(e) },
        };
        let lo = match hex_digit(c1) {
            Ok(v) => v,
            Err(e) => { return Err(e) },
        };
        proof {
            assert(hi << 4 | lo == hi * 16 + lo) by (bit_vector)
                requires
                    hi < 16 && lo < 16,
            ;
        }
        out.push(hi << 4 | lo);
        i += 2;
    }
    proof {
        assert(out@ =~= bytes_of_hex(hex@));
    }
    Ok(out)
}

/// Maps a nibble value to the ASCII code of its lowercase hex digit.
fn nibble_ascii(n: u8) -> (r: u8)
    requires
        n < 16,
    ensures
        r == nibble_code(n),
{
    if n < 10 {
        0x30 + n
    } else {
        0x57 + n
    }
}

/// Encodes bytes as lowercase hex text: two digits per byte, high nibble
/// first. The output's length is twice the input's, and every character of
/// it is a lowercase hex digit.
pub fn bytes_to_hex(bytes: &Vec<u8>) -> (r: String)
    ensures
        r@ == hex_of(bytes@),
        r@.len() == 2 * bytes@.len(),
        forall|i: int| 0 <= i < r@.len() ==> is_hex_digit(r@[i]),
{
    let mut out: Vec<u8> = Vec::new();
    let n = bytes.len();
    let mut i: usize = 0;
    while i < n
        invariant
            n == bytes@.len(),
            i <= n,
            out@ =~= hex_codes(bytes@.take(i as int)),
        decreases n - i,
    {
        let b = bytes[i];
        proof {
            lemma_nibble_bounds(b);
        }
        out.push(nibble_ascii(b >> 4));
        out.push(nibble_ascii(b & 0xf));
        i += 1;
        proof {
            assert(out@ =~= hex_codes(bytes@.take(i as int)));
        }
    }
    proof {
        assert(bytes@.take(n as int) =~= bytes@);
        lemma_hex_codes_ascii(bytes@);
        lemma_hex_round_trip(bytes@);
    }
    ascii_to_string(out)
}

} // verus!
