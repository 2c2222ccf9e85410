//! The one outside call of the library: the Tiger hash.
//!
//! Every digest in a tree is the Tiger hash of some byte sequence.  The
//! mathematical result of hashing is named by the uninterpreted function
//! `tiger_of`; the executable wrapper `tiger_hash` is the only place where
//! the outside crate is called, and everything else is proved against the
//! name.

use vstd::prelude::*;

verus! {

/// The Tiger digest of a byte sequence, as a mathematical function.
///
/// Tiger is a pure function of its input bytes alone, so naming its result
/// is sound; nothing else is assumed of it.
pub uninterp spec fn tiger_of(bytes: Seq<u8>) -> Seq<u8>;

/// Relies on `tiger::Tiger` (through the `Digest` trait of the `digest`
/// crate): hashing is a pure, deterministic function of the input bytes
/// alone, and its output size is 24 bytes (`OutputSize = U24`).
#[verifier::external_body]
pub(crate) fn tiger_hash(bytes: &[u8]) -> (r: Vec<u8>)
    ensures
        r@ == tiger_of(bytes@),
        r@.len() == 24,
{
    let out = <tiger::Tiger as tiger::Digest>::digest(bytes);
    out.as_slice().to_vec()
}

/// Byte-for-byte equality of two byte vectors.
pub fn bytes_eq(a: &Vec<u8>, b: &Vec<u8>) -> (r: bool)
    ensures
        r == (a@ == b@),
{
    if a.len() != b.len() {
        return false;
    }
    let mut i: usize = 0;
    while i < a.len()
        invariant
            i <= a@.len(),
            a@.len() == b@.len(),
            forall|k: int| 0 <= k < i ==> a@[k] == b@[k],
        decreases a@.len() - i,
    {
        if a[i] != b[i] {
            return false;
        }
        i += 1;
    }
    proof {
        assert(a@ =~= b@);
    }
    true
}

} // verus!
