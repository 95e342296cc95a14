use vstd::prelude::*;

use sha1::{Digest, Sha1};

verus! {

/// The SHA-1 digest of a byte sequence. The function is left
/// uninterpreted: every identifier in this crate is stated in terms of it,
/// and nothing in this crate claims to know its value on any input.
pub uninterp spec fn sha1_of(bytes: Seq<u8>) -> Seq<u8>;

/// Relies on `sha1::Sha1` through `digest::Digest::digest`: the digest
/// depends on the input bytes alone and is exactly twenty bytes long.
#[verifier::external_body]
pub(crate) fn sha1_digest(bytes: &Vec<u8>) -> (r: Vec<u8>)
    ensures
        r@ == sha1_of(bytes@),
        r@.len() == 20,
{
    Sha1::digest(bytes.as_slice()).to_vec()
}

} // verus!
