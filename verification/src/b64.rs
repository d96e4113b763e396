//! Base64 codec: standard alphabet (`A-Z a-z 0-9 + /`) with `=` padding.
//!
//! Encoding processes input in chunks of three bytes, conceptually
//! zero-padding a short final chunk before splitting it into four 6-bit
//! groups and then overwriting the surplus output characters with `=`.
//! Decoding strips every `=`, maps the remaining characters back to their
//! 6-bit values — any character outside the alphabet fails fast with
//! [`B64Error`] — and rebuilds three bytes per group of four sextets,
//! dropping from a short final group as many trailing bytes as it lacked
//! sextets.
use vstd::prelude::*;

use crate::ascii::ascii_chars;
use crate::ascii::ascii_to_string;

verus! {

/// Error returned when base64 decoding meets a character outside the
/// 64-character alphabet (`=` excepted, which is stripped). It carries no
/// detail; the decode aborts with no partial result.
#[derive(Debug)]
pub struct B64Error;

/// True exactly of the 64 characters of the standard base64 alphabet.
pub open spec fn is_b64_char(c: char) -> bool {
    let u = c as u32;
    (0x41 <= u && u <= 0x5a) || (0x61 <= u && u <= 0x7a) || (0x30 <= u && u <= 0x39) || u == 0x2b
        || u == 0x2f
}

/// The 6-bit value (0..64) of a base64 alphabet character.
pub open spec fn b64_val(c: char) -> u8
    recommends
        is_b64_char(c),
{
    let u = c as u32;
    if 0x41 <= u && u <= 0x5a {
        (u - 0x41) as u8
    } else if 0x61 <= u && u <= 0x7a {
        (u - 0x61 + 26) as u8
    } else if 0x30 <= u && u <= 0x39 {
        (u - 0x30 + 52) as u8
    } else if u == 0x2b {
        62
    } else {
        63
    }
}

/// The ASCII code of the alphabet character for a 6-bit value.
pub open spec fn b64_code(s: u8) -> u8
    recommends
        s < 64,
{
    if s < 26 {
        (0x41 + s) as u8
    } else if s < 52 {
        (0x61 + (s - 26)) as u8
    } else if s < 62 {
        (0x30 + (s - 52)) as u8
    } else if s == 62 {
        0x2b
    } else {
        0x2f
    }
}

/// The alphabet character for a 6-bit value.
pub open spec fn b64_char(s: u8) -> char
    recommends
        s < 64,
{
    b64_code(s) as char
}

/// The four ASCII codes encoding one full chunk of three bytes.
pub open spec fn group_codes(b0: u8, b1: u8, b2: u8) -> Seq<u8> {
    seq![
        b64_code(b0 >> 2),
        b64_code((b0 & 3) << 4 | b1 >> 4),
        b64_code((b1 & 0xf) << 2 | b2 >> 6),
        b64_code(b2 & 0x3f),
    ]
}

/// The ASCII codes of the base64 encoding of a byte sequence, `=` padding
/// included: three bytes per group of four characters, with a short final
/// chunk zero-padded and its surplus characters overwritten by `=` (0x3d).
pub open spec fn b64_codes(bytes: Seq<u8>) -> Seq<u8>
    decreases bytes.len(),
{
    if bytes.len() == 0 {
        Seq::empty()
    } else if bytes.len() == 1 {
        seq![b64_code(bytes[0] >> 2), b64_code((bytes[0] & 3) << 4), 0x3d, 0x3d]
    } else if bytes.len() == 2 {
        seq![
            b64_code(bytes[0] >> 2),
            b64_code((bytes[0] & 3) << 4 | bytes[1] >> 4),
            b64_code((bytes[1] & 0xf) << 2),
            0x3d,
        ]
    } else {
        group_codes(bytes[0], bytes[1], bytes[2]) + b64_codes(bytes.skip(3))
    }
}

/// The base64 encoding of a byte sequence as a character sequence.
pub open spec fn b64_of(bytes: Seq<u8>) -> Seq<char> {
    ascii_chars(b64_codes(bytes))
}

/// A character sequence with every `=` removed.
pub open spec fn strip_pad(s: Seq<char>) -> Seq<char> {
    s.filter(|c: char| c != '=')
}

/// The 6-bit values of a sequence of alphabet characters.
pub open spec fn sextet_vals(s: Seq<char>) -> Seq<u8> {
    Seq::new(s.len(), |i: int| b64_val(s[i]))
}

/// The three bytes rebuilt from one full group of four sextets.
pub open spec fn group_bytes(s0: u8, s1: u8, s2: u8, s3: u8) -> Seq<u8> {
    seq![s0 << 2 | s1 >> 4, (s1 & 0xf) << 4 | s2 >> 2, (s2 & 3) << 6 | s3]
}

/// The bytes rebuilt from a sequence of sextets: three bytes per group of
/// four, a short final group conceptually zero-padded and then truncated
/// by as many bytes as it lacked sextets.
pub open spec fn bytes_of_sextets(s: Seq<u8>) -> Seq<u8>
    decreases s.len(),
{
    if s.len() >= 4 {
        group_bytes(s[0], s[1], s[2], s[3]) + bytes_of_sextets(s.skip(4))
    } else if s.len() == 2 {
        seq![s[0] << 2 | s[1] >> 4]
    } else if s.len() == 3 {
        seq![s[0] << 2 | s[1] >> 4, (s[1] & 0xf) << 4 | s[2] >> 2]
    } else {
        Seq::empty()
    }
}

/// The bytes spelled by base64 text: strip the padding, map the characters
/// to sextets, rebuild the bytes.
pub open spec fn b64_decoded(s: Seq<char>) -> Seq<u8> {
    bytes_of_sextets(sextet_vals(strip_pad(s)))
}

/// The alphabet character of a 6-bit value is ASCII, is not the pad, and
/// maps back to that value.
proof fn lemma_b64_code_props(s: u8)
    requires
        s < 64,
    ensures
        b64_code(s) < 0x80,
        b64_code(s) != 0x3d,
        is_b64_char(b64_char(s)),
        b64_char(s) != '=',
        b64_val(b64_char(s)) == s,
{
    assert('=' as u32 == 0x3d);
}

/// The four sextets of a full chunk are below 64 and reassemble into the
/// chunk's three bytes.
proof fn lemma_group_split(b0: u8, b1: u8, b2: u8)
    by (bit_vector)
    ensures
        b0 >> 2 < 64,
        (b0 & 3) << 4 | b1 >> 4 < 64,
        (b1 & 0xf) << 2 | b2 >> 6 < 64,
        b2 & 0x3f < 64,
        (b0 >> 2) << 2 | ((b0 & 3) << 4 | b1 >> 4) >> 4 == b0,
        (((b0 & 3) << 4 | b1 >> 4) & 0xf) << 4 | ((b1 & 0xf) << 2 | b2 >> 6) >> 2 == b1,
        (((b1 & 0xf) << 2 | b2 >> 6) & 3) << 6 | (b2 & 0x3f) == b2,
{
}

/// The sextets of a short final chunk are below 64 and reassemble into the
/// chunk's bytes.
proof fn lemma_short_split(b0: u8, b1: u8)
    by (bit_vector)
    ensures
        b0 >> 2 < 64,
        (b0 & 3) << 4 < 64,
        (b0 & 3) << 4 | b1 >> 4 < 64,
        (b1 & 0xf) << 2 < 64,
        (b0 >> 2) << 2 | ((b0 & 3) << 4) >> 4 == b0,
        (b0 >> 2) << 2 | ((b0 & 3) << 4 | b1 >> 4) >> 4 == b0,
        (((b0 & 3) << 4 | b1 >> 4) & 0xf) << 4 | ((b1 & 0xf) << 2) >> 2 == b1,
{
}

/// Appending a character either extends the stripped sequence or leaves it
/// unchanged, according as the character is the pad or not.
proof fn lemma_strip_pad_push(s: Seq<char>, c: char)
    ensures
        strip_pad(s.push(c)) == if c == '=' {
            strip_pad(s)
        } else {
            strip_pad(s).push(c)
        },
{
    reveal(Seq::filter);
    assert(s.push(c).drop_last() =~= s);
    assert(s.push(c).last() == c);
}

/// Stripping distributes over concatenation.
proof fn lemma_strip_pad_add(a: Seq<char>, b: Seq<char>)
    ensures
        strip_pad(a + b) == strip_pad(a) + strip_pad(b),
    decreases b.len(),
{
    reveal(Seq::filter);
    if b.len() == 0 {
        assert(a + b =~= a);
        assert(strip_pad(a) + strip_pad(b) =~= strip_pad(a));
    } else {
        lemma_strip_pad_add(a, b.drop_last());
        lemma_strip_pad_push(a + b.drop_last(), b.last());
        lemma_strip_pad_push(b.drop_last(), b.last());
        assert((a + b.drop_last()).push(b.last()) =~= a + b);
        assert(b.drop_last().push(b.last()) =~= b);
        if b.last() == '=' {
        } else {
            assert(strip_pad(a) + strip_pad(b.drop_last()).push(b.last()) =~= (strip_pad(a)
                + strip_pad(b.drop_last())).push(b.last()));
        }
    }
}

/// Stripping a sequence without pads keeps it whole.
proof fn lemma_strip_pad_all_kept(s: Seq<char>)
    requires
        forall|i: int| 0 <= i < s.len() ==> s[i] != '=',
    ensures
        strip_pad(s) == s,
    decreases s.len(),
{
    reveal(Seq::filter);
    if s.len() == 0 {
    } else {
        lemma_strip_pad_all_kept(s.drop_last());
        lemma_strip_pad_push(s.drop_last(), s.last());
        assert(s.drop_last().push(s.last()) =~= s);
    }
}

/// The encoding's length: four characters for every started chunk of
/// three bytes.
proof fn lemma_b64_codes_len(bytes: Seq<u8>)
    ensures
        b64_codes(bytes).len() == 4 * ((bytes.len() + 2) / 3),
    decreases bytes.len(),
{
    if bytes.len() >= 3 {
        lemma_b64_codes_len(bytes.skip(3));
    }
}

/// Round trip: the base64 encoding of any byte sequence consists only of
/// alphabet characters and pads, and decodes back to the original bytes.
pub proof fn lemma_b64_round_trip(bytes: Seq<u8>)
    ensures
        forall|i: int|
            0 <= i < b64_of(bytes).len() ==> (b64_of(bytes)[i] == '=' || is_b64_char(
                b64_of(bytes)[i],
            )),
        b64_decoded(b64_of(bytes)) == bytes,
    decreases bytes.len(),
{
    reveal(Seq::filter);
    assert(0x3d as u8 as char == '=');
    if bytes.len() == 0 {
        assert(b64_of(bytes) =~= Seq::<char>::empty());
        assert(b64_decoded(b64_of(bytes)) =~= bytes);
    } else if bytes.len() == 1 {
        let b0 = bytes[0];
        lemma_short_split(b0, 0);
        let x0 = b0 >> 2;
        let x1 = (b0 & 3) << 4;
        lemma_b64_code_props(x0);
        lemma_b64_code_props(x1);
        let ch = b64_of(bytes);
        assert(ch =~= Seq::<char>::empty().push(b64_char(x0)).push(b64_char(x1)).push('=').push(
            '=',
        ));
        lemma_strip_pad_push(Seq::<char>::empty().push(b64_char(x0)).push(b64_char(x1)).push('='), '=');
        lemma_strip_pad_push(Seq::<char>::empty().push(b64_char(x0)).push(b64_char(x1)), '=');
        lemma_strip_pad_push(Seq::<char>::empty().push(b64_char(x0)), b64_char(x1));
        lemma_strip_pad_push(Seq::<char>::empty(), b64_char(x0));
        assert(strip_pad(Seq::<char>::empty()) =~= Seq::<char>::empty());
        let sp = strip_pad(ch);
        assert(sp =~= Seq::<char>::empty().push(b64_char(x0)).push(b64_char(x1)));
        let sx = sextet_vals(sp);
        assert(sx =~= seq![x0, x1]);
        assert(bytes_of_sextets(sx) =~= seq![x0 << 2 | x1 >> 4]);
        assert(b64_decoded(ch) =~= bytes);
    } else if bytes.len() == 2 {
        let b0 = bytes[0];
        let b1 = bytes[1];
        lemma_short_split(b0, b1);
        let x0 = b0 >> 2;
        let x1 = (b0 & 3) << 4 | b1 >> 4;
        let x2 = (b1 & 0xf) << 2;
        lemma_b64_code_props(x0);
        lemma_b64_code_props(x1);
        lemma_b64_code_props(x2);
        let ch = b64_of(bytes);
        assert(ch =~= Seq::<char>::empty().push(b64_char(x0)).push(b64_char(x1)).push(
            b64_char(x2),
        ).push('='));
        lemma_strip_pad_push(
            Seq::<char>::empty().push(b64_char(x0)).push(b64_char(x1)).push(b64_char(x2)),
            '=',
        );
        lemma_strip_pad_push(Seq::<char>::empty().push(b64_char(x0)).push(b64_char(x1)), b64_char(x2));
        lemma_strip_pad_push(Seq::<char>::empty().push(b64_char(x0)), b64_char(x1));
        lemma_strip_pad_push(Seq::<char>::empty(), b64_char(x0));
        assert(strip_pad(Seq::<char>::empty()) =~= Seq::<char>::empty());
        let sp = strip_pad(ch);
        assert(sp =~= Seq::<char>::empty().push(b64_char(x0)).push(b64_char(x1)).push(
            b64_char(x2),
        ));
        let sx = sextet_vals(sp);
        assert(sx =~= seq![x0, x1, x2]);
        assert(bytes_of_sextets(sx) =~= seq![x0 << 2 | x1 >> 4, (x1 & 0xf) << 4 | x2 >> 2]);
        assert(b64_decoded(ch) =~= bytes);
    } else {
        let b0 = bytes[0];
        let b1 = bytes[1];
        let b2 = bytes[2];
        let rest = bytes.skip(3);
        lemma_b64_round_trip(rest);
        lemma_group_split(b0, b1, b2);
        let x0 = b0 >> 2;
        let x1 = (b0 & 3) << 4 | b1 >> 4;
        let x2 = (b1 & 0xf) << 2 | b2 >> 6;
        let x3 = b2 & 0x3f;
        lemma_b64_code_props(x0);
        lemma_b64_code_props(x1);
        lemma_b64_code_props(x2);
        lemma_b64_code_props(x3);
        let front = ascii_chars(group_codes(b0, b1, b2));
        let rest_ch = b64_of(rest);
        assert(front =~= seq![b64_char(x0), b64_char(x1), b64_char(x2), b64_char(x3)]);
        assert(b64_of(bytes) =~= front + rest_ch);
        lemma_strip_pad_add(front, rest_ch);
        lemma_strip_pad_all_kept(front);
        let sp_rest = strip_pad(rest_ch);
        assert(strip_pad(b64_of(bytes)) == front + sp_rest);
        let sx = sextet_vals(front + sp_rest);
        let tail = sextet_vals(sp_rest);
        assert(sx =~= seq![x0, x1, x2, x3] + tail);
        assert(sx.skip(4) =~= tail);
        assert(sx.len() >= 4);
        assert(bytes_of_sextets(sx) == group_bytes(x0, x1, x2, x3) + bytes_of_sextets(tail));
        assert(group_bytes(x0, x1, x2, x3) =~= seq![b0, b1, b2]);
        assert(b64_decoded(b64_of(bytes)) =~= bytes);
        assert forall|i: int|
            0 <= i < b64_of(bytes).len() implies (b64_of(bytes)[i] == '=' || is_b64_char(
            b64_of(bytes)[i],
        )) by {
            if i >= 4 {
                assert(b64_of(bytes)[i] == rest_ch[i - 4]);
            }
        }
    }
}

/// The base64 codec maps the empty sequence to the empty sequence, both
/// ways.
pub proof fn lemma_b64_empty()
    ensures
        b64_of(Seq::<u8>::empty()) == Seq::<char>::empty(),
        b64_decoded(Seq::<char>::empty()) == Seq::<u8>::empty(),
{
    reveal(Seq::filter);
    assert(b64_of(Seq::<u8>::empty()) =~= Seq::<char>::empty());
    assert(strip_pad(Seq::<char>::empty()) =~= Seq::<char>::empty());
    assert(sextet_vals(Seq::<char>::empty()) =~= Seq::<u8>::empty());
}

/// Correct padding: the encoding's pad characters are exactly the last
/// `(3 - len % 3) % 3` characters; everything before them belongs to the
/// alphabet.
pub proof fn lemma_b64_pad_structure(bytes: Seq<u8>)
    ensures
        bytes.len() % 3 == 0 ==> forall|i: int|
            0 <= i < b64_of(bytes).len() ==> is_b64_char(b64_of(bytes)[i]),
        bytes.len() % 3 == 1 ==> b64_of(bytes)[b64_of(bytes).len() - 1] == '=' && b64_of(bytes)[
            b64_of(bytes).len() - 2] == '=' && forall|i: int|
            0 <= i < b64_of(bytes).len() - 2 ==> is_b64_char(b64_of(bytes)[i]),
        bytes.len() % 3 == 2 ==> b64_of(bytes)[b64_of(bytes).len() - 1] == '=' && forall|i: int|
            0 <= i < b64_of(bytes).len() - 1 ==> is_b64_char(b64_of(bytes)[i]),
    decreases bytes.len(),
{
    assert(0x3d as u8 as char == '=');
    if bytes.len() == 0 {
    } else if bytes.len() == 1 {
        lemma_short_split(bytes[0], 0);
        lemma_b64_code_props(bytes[0] >> 2);
        lemma_b64_code_props((bytes[0] & 3) << 4);
    } else if bytes.len() == 2 {
        lemma_short_split(bytes[0], bytes[1]);
        lemma_b64_code_props(bytes[0] >> 2);
        lemma_b64_code_props((bytes[0] & 3) << 4 | bytes[1] >> 4);
        lemma_b64_code_props((bytes[1] & 0xf) << 2);
    } else {
        let b0 = bytes[0];
        let b1 = bytes[1];
        let b2 = bytes[2];
        let rest = bytes.skip(3);
        lemma_b64_pad_structure(rest);
        lemma_group_split(b0, b1, b2);
        lemma_b64_code_props(b0 >> 2);
        lemma_b64_code_props((b0 & 3) << 4 | b1 >> 4);
        lemma_b64_code_props((b1 & 0xf) << 2 | b2 >> 6);
        lemma_b64_code_props(b2 & 0x3f);
        let front = ascii_chars(group_codes(b0, b1, b2));
        let rest_ch = b64_of(rest);
        assert(b64_of(bytes) =~= front + rest_ch);
        assert(rest.len() % 3 == bytes.len() % 3);
        assert(forall|i: int|
            4 <= i < b64_of(bytes).len() ==> b64_of(bytes)[i] == rest_ch[i - 4]);
        if bytes.len() % 3 != 0 {
            assert(rest.len() > 0);
            assert(rest_ch.len() > 0) by {
                lemma_b64_codes_len(rest);
            }
        }
    }
}

/// Maps a base64 alphabet character to its 6-bit value; any other
/// character, the pad included, is a `B64Error`.
fn b64_index(c: char) -> (r: Result<u8, B64Error>)
    ensures
        r is Ok <==> is_b64_char(c),
        r matches Ok(v) ==> v == b64_val(c) && v < 64,
{
    let u = c as u32;
    if 0x41 <= u && u <= 0x5a {
        Ok((u - 0x41) as u8)
    } else if 0x61 <= u && u <= 0x7a {
        Ok((u - 0x61 + 26) as u8)
    } else if 0x30 <= u && u <= 0x39 {
        Ok((u - 0x30 + 52) as u8)
    } else if u == 0x2b {
        Ok(62)
    } else if u == 0x2f {
        Ok(63)
    } else {
        Err(B64Error)
    }
}

/// Maps a 6-bit value to the ASCII code of its alphabet character.
fn b64_ascii(s: u8) -> (r: u8)
    requires
        s < 64,
    ensures
        r == b64_code(s),
        r < 0x80,
{
    if s < 26 {
        0x41 + s
    } else if s < 52 {
        0x61 + (s - 26)
    } else if s < 62 {
        0x30 + (s - 52)
    } else if s == 62 {
        0x2b
    } else {
        0x2f
    }
}

/// Encodes bytes as base64 text: four alphabet characters per chunk of
/// three bytes, a short final chunk zero-padded and its surplus characters
/// overwritten by `=`. The output's length is four characters for every
/// started chunk of three bytes.
pub fn encode_b64(bytes: &Vec<u8>) -> (r: String)
    ensures
        r@ == b64_of(bytes@),
        r@.len() == 4 * ((bytes@.len() + 2) / 3),
        r@.len() % 4 == 0,
{
    let n = bytes.len();
    let mut out: Vec<u8> = Vec::new();
    let mut i: usize = 0;
    proof {
        assert(bytes@.skip(0) =~= bytes@);
        assert(out@ + b64_codes(bytes@) =~= b64_codes(bytes@));
    }
    while n - i >= 3
        invariant
            n == bytes@.len(),
            i <= n,
            forall|k: int| 0 <= k < out@.len() ==> out@[k] < 0x80,
            out@ + b64_codes(bytes@.skip(i as int)) == b64_codes(bytes@),
        decreases n - i,
    {
        let b0 = bytes[i];
        let b1 = bytes[i + 1];
        let b2 = bytes[i + 2];
        proof {
            lemma_group_split(b0, b1, b2);
        }
        let ghost old_out = out@;
        out.push(b64_ascii(b0 >> 2));
        out.push(b64_ascii((b0 & 3) << 4 | b1 >> 4));
        out.push(b64_ascii((b1 & 0xf) << 2 | b2 >> 6));
        out.push(b64_ascii(b2 & 0x3f));
        proof {
            let rem = bytes@.skip(i as int);
            assert(rem.len() >= 3);
            assert(rem[0] == b0 && rem[1] == b1 && rem[2] == b2);
            assert(rem.skip(3) =~= bytes@.skip(i as int + 3));
            assert(b64_codes(rem) == group_codes(b0, b1, b2) + b64_codes(
                bytes@.skip(i as int + 3),
            ));
            assert(out@ =~= old_out + group_codes(b0, b1, b2));
            assert(out@ + b64_codes(bytes@.skip(i as int + 3)) =~= old_out + b64_codes(rem));
        }
        i += 3;
    }
    let ghost old_out = out@;
    let ghost rem = bytes@.skip(i as int);
    if n - i == 1 {
        let b0 = bytes[i];
        proof {
            lemma_short_split(b0, 0);
        }
        out.push(b64_ascii(b0 >> 2));
        out.push(b64_ascii((b0 & 3) << 4));
        out.push(0x3d);
        out.push(0x3d);
        proof {
            assert(rem.len() == 1 && rem[0] == b0);
            assert(out@ =~= old_out + b64_codes(rem));
        }
    } else if n - i == 2 {
        let b0 = bytes[i];
        let b1 = bytes[i + 1];
        proof {
            lemma_short_split(b0, b1);
        }
        out.push(b64_ascii(b0 >> 2));
        out.push(b64_ascii((b0 & 3) << 4 | b1 >> 4));
        out.push(b64_ascii((b1 & 0xf) << 2));
        out.push(0x3d);
        proof {
            assert(rem.len() == 2 && rem[0] == b0 && rem[1] == b1);
            assert(out@ =~= old_out + b64_codes(rem));
        }
    } else {
        proof {
            assert(rem.len() == 0);
            assert(out@ =~= old_out + b64_codes(rem));
        }
    }
    proof {
        assert(out@ =~= b64_codes(bytes@));
        lemma_b64_codes_len(bytes@);
    }
    ascii_to_string(out)
}

/// Decodes base64 text into bytes.
///
/// Every `=` is stripped first; decoding then succeeds exactly when each
/// remaining character belongs to the 64-character alphabet, and otherwise
/// fails fast with [`B64Error`] and no partial result. The bytes are
/// rebuilt three per group of four sextets, a short final group
/// zero-padded and the output truncated by as many bytes as that group
/// lacked sextets.
pub fn decode_b64(b64: &String) -> (r: Result<Vec<u8>, B64Error>)
    ensures
        r is Ok <==> (forall|i: int|
            0 <= i < b64@.len() ==> (b64@[i] == '=' || is_b64_char(b64@[i]))),
        r matches Ok(b) ==> b@ == b64_decoded(b64@),
{
    let s = b64.as_str();
    let n = s.unicode_len();
    let mut sext: Vec<u8> = Vec::new();
    let mut i: usize = 0;
    proof {
        reveal(Seq::filter);
        assert(b64@.take(0) =~= Seq::<char>::empty());
        assert(sext@ =~= sextet_vals(strip_pad(b64@.take(0))));
    }
    while i < n
        invariant
            n == b64@.len(),
            i <= n,
            s@ == b64@,
            forall|k: int| 0 <= k < i ==> (b64@[k] == '=' || is_b64_char(b64@[k])),
            sext@ == sextet_vals(strip_pad(b64@.take(i as int))),
        decreases n - i,
    {
        let c = s.get_char(i);
        let ghost prefix = b64@.take(i as int);
        if c != '=' {
            let v = match b64_index(c) {
                Ok(v) => v,
                Err(e) => { return Err(e) },
            };
            sext.push(v);
        }
        proof {
            lemma_strip_pad_push(prefix, c);
            assert(b64@.take(i as int + 1) =~= prefix.push(c));
            if c != '=' {
                assert(sext@ =~= sextet_vals(strip_pad(prefix).push(c)));
            }
        }
        i += 1;
    }
    proof {
        assert(b64@.take(n as int) =~= b64@);
    }
    let m = sext.len();
    let mut out: Vec<u8> = Vec::new();
    let mut j: usize = 0;
    proof {
        assert(sext@.skip(0) =~= sext@);
        assert(out@ + bytes_of_sextets(sext@) =~= bytes_of_sextets(sext@));
    }
    while m - j >= 4
        invariant
            m == sext@.len(),
            j <= m,
            out@ + bytes_of_sextets(sext@.skip(j as int)) == bytes_of_sextets(sext@),
        decreases m - j,
    {
        let s0 = sext[j];
        let s1 = sext[j + 1];
        let s2 = sext[j + 2];
        let s3 = sext[j + 3];
        let ghost old_out = out@;
        out.push(s0 << 2 | s1 >> 4);
        out.push((s1 & 0xf) << 4 | s2 >> 2);
        out.push((s2 & 3) << 6 | s3);
        proof {
            let rem = sext@.skip(j as int);
            assert(rem.len() >= 4);
            assert(rem[0] == s0 && rem[1] == s1 && rem[2] == s2 && rem[3] == s3);
            assert(rem.skip(4) =~= sext@.skip(j as int + 4));
            assert(bytes_of_sextets(rem) == group_bytes(s0, s1, s2, s3) + bytes_of_sextets(
                sext@.skip(j as int + 4),
            ));
            assert(out@ =~= old_out + group_bytes(s0, s1, s2, s3));
            assert(out@ + bytes_of_sextets(sext@.skip(j as int + 4)) =~= old_out
                + bytes_of_sextets(rem));
        }
        j += 4;
    }
    let ghost old_out = out@;
    let ghost rem = sext@.skip(j as int);
    if m - j == 2 {
        let s0 = sext[j];
        let s1 = sext[j + 1];
        out.push(s0 << 2 | s1 >> 4);
        proof {
            assert(rem.len() == 2 && rem[0] == s0 && rem[1] == s1);
            assert(out@ =~= old_out + bytes_of_sextets(rem));
        }
    } else if m - j == 3 {
        let s0 = sext[j];
        let s1 = sext[j + 1];
        let s2 = sext[j + 2];
        out.push(s0 << 2 | s1 >> 4);
        out.push((s1 & 0xf) << 4 | s2 >> 2);
        proof {
            assert(rem.len() == 3 && rem[0] == s0 && rem[1] == s1 && rem[2] == s2);
            assert(out@ =~= old_out + bytes_of_sextets(rem));
        }
    } else {
        proof {
            assert(rem.len() == 0 || rem.len() == 1);
            assert(bytes_of_sextets(rem) =~= Seq::<u8>::empty());
            assert(out@ =~= old_out + bytes_of_sextets(rem));
        }
    }
    proof {
        assert(out@ =~= bytes_of_sextets(sext@));
    }
    Ok(out)
}

} // verus!
