//! Fixed-length XOR: byte-wise XOR of two equal-length byte sequences.
use vstd::prelude::*;

verus! {

/// The byte-wise XOR of two equal-length byte sequences.
pub open spec fn xor_bytes(a: Seq<u8>, b: Seq<u8>) -> Seq<u8>
    recommends
        a.len() == b.len(),
{
    Seq::new(a.len(), |i: int| a[i] ^ b[i])
}

/// XORs two byte sequences element-wise.
///
/// The inputs stand for a key stream and a text of matching length; a
/// length mismatch is a caller's contract violation, ruled out by the
/// precondition rather than reported as an error. The output never
/// truncates or pads: its length equals the inputs' length.
pub fn xor(a: &Vec<u8>, b: &Vec<u8>) -> (r: Vec<u8>)
    requires
        a@.len() == b@.len(),
    ensures
        r@ == xor_bytes(a@, b@),
        r@.len() == a@.len(),
{
    let n = a.len();
    let mut out: Vec<u8> = Vec::new();
    let mut i: usize = 0;
    while i < n
        invariant
            n == a@.len(),
            n == b@.len(),
            i <= n,
            out@.len() == i,
            forall|j: int| 0 <= j < i ==> out@[j] == (a@[j] ^ b@[j]),
        decreases n - i,
    {
        out.push(a[i] ^ b[i]);
        i += 1;
    }
    proof {
        assert(out@ =~= xor_bytes(a@, b@));
    }
    out
}

} // verus!
