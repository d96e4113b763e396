//! Conversion between vectors of ASCII byte codes and `String`s.
//!
//! The codecs build their textual output as a vector of ASCII codes; this
//! module turns such a vector into a `String` whose characters are exactly
//! those codes.
use vstd::prelude::*;

verus! {

/// The character sequence spelled by a sequence of ASCII codes.
pub open spec fn ascii_chars(s: Seq<u8>) -> Seq<char> {
    Seq::new(s.len(), |i: int| s[i] as char)
}

/// Relies on `String::from_utf8`: a vector of bytes below 0x80 is valid
/// UTF-8 (every such byte encodes the character with the same code), so the
/// call returns `Ok` and the resulting string spells exactly those codes.
#[verifier::external_body]
pub(crate) fn ascii_to_string(bytes: Vec<u8>) -> (r: String)
    requires
        forall|i: int| 0 <= i < bytes@.len() ==> bytes@[i] < 0x80,
    ensures
        r@ == ascii_chars(bytes@),
{
    String::from_utf8(bytes).unwrap()
}

} // verus!
