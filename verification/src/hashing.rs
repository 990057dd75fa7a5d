//! Content hashing: the digest that decides file identity.

use vstd::prelude::*;

verus! {

/// The hex rendering of the blake3 digest of a byte string. The digest is a
/// pure function of the bytes: the same contents always hash the same way.
pub uninterp spec fn blake3_hex_of(bytes: Seq<u8>) -> Seq<char>;

/// Relies on blake3::hash and blake3::Hash::to_hex: the digest depends on
/// the input bytes alone, and to_hex renders it as hexadecimal text.
#[verifier::external_body]
pub(crate) fn hash_bytes(contents: &[u8]) -> (r: String)
    ensures
        r@ == blake3_hex_of(contents@),
{
    blake3::hash(contents).to_hex().as_str().to_owned()
}

} // verus!
