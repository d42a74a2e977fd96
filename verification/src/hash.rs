//! The derivation of an identifier from a name.
//!
//! A node's identifier is the BLAKE2b digest, 160 bits long, of a salt
//! followed by the node's name, read as a number with the first byte the most
//! significant.

use crate::bytes::be_value;
use crate::guid::GUID;
use blake2::digest::consts::U20;
use blake2::{Blake2b, Digest};
use vstd::prelude::*;
use vstd::string::StringSliceAdditionalSpecFns;

verus! {

/// The number of bytes in a digest: as many as an identifier holds.
pub const DIGEST_BYTES: usize = 20;

/// The BLAKE2b digest of `data` with an output of 160 bits, as the `blake2`
/// crate computes it. Nothing more is said of it than that it is the digest.
pub uninterp spec fn blake2b_160(data: Seq<u8>) -> Seq<u8>;

/// The BLAKE2b digest of `data` with an output of 160 bits.
///
/// Trusted: this is `Digest::digest` of the `blake2` crate for `Blake2b<U20>`,
/// which hashes the whole of `data` from a fresh state. The digest depends on
/// the data alone.
#[verifier::external_body]
fn blake2b_160_digest(data: &[u8]) -> (digest: [u8; DIGEST_BYTES])
    ensures
        digest@ == blake2b_160(data@),
{
    Blake2b::<U20>::digest(data).into()
}

/// The number of the identifier derived from `salt` and `name`.
pub open spec fn derived_number(salt: Seq<u8>, name: &str) -> nat {
    be_value(blake2b_160(salt + name.spec_bytes()))
}

/// Derives an identifier from a salt and a name: the digest of the salt
/// followed by the bytes of the name.
pub fn derive_guid(salt: &[u8], name: &str) -> (guid: GUID)
    ensures
        guid@ == derived_number(salt@, name),
{
    let mut data: Vec<u8> = Vec::new();
    data.extend_from_slice(salt);
    data.extend_from_slice(name.as_bytes());
    assert(data@ =~= salt@ + name.spec_bytes());
    let digest = blake2b_160_digest(data.as_slice());
    GUID::from_bytes_be(digest.as_slice())
}

} // verus!
