//! The two outside calls the codec rests on: the SHA-256 digest and the
//! unsigned LEB128 writer. Each stands behind one trusted wrapper whose
//! contract is what the calling code relies on.

use vstd::prelude::*;
use crate::bytes::uleb128_of;
use sha2::Digest;

verus! {

/// The SHA-256 digest of a byte sequence: a function of the bytes alone.
pub uninterp spec fn sha256_of(data: Seq<u8>) -> Seq<u8>;

/// Relies on sha2's `Sha256` through `Digest::digest`: the digest is a
/// function of the input bytes alone and is 32 bytes long.
#[verifier::external_body]
pub(crate) fn sha256(data: &[u8]) -> (r: Vec<u8>)
    ensures
        r@ == sha256_of(data@),
        r@.len() == 32,
{
    sha2::Sha256::digest(data).to_vec()
}

/// Relies on `leb128::write::unsigned`: it writes the low seven bits of
/// each remaining group first, setting the high bit on every byte but the
/// last, which is `uleb128_of`; writing into a `Vec` cannot fail.
#[verifier::external_body]
pub(crate) fn uleb128_encode(x: u64) -> (r: Vec<u8>)
    ensures
        r@ == uleb128_of(x as nat),
{
    let mut r: Vec<u8> = Vec::new();
    let _ = leb128::write::unsigned(&mut r, x);
    r
}

} // verus!
