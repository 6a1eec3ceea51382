//! XXH3-128 checksums.

use crate::bytes;
use vstd::prelude::*;
use xxhash_rust::xxh3::Xxh3;

verus! {

/// The streaming hasher of `xxhash_rust`.
#[verifier::external_type_specification]
#[verifier::external_body]
pub struct ExXxh3(Xxh3);

/// Everything that a hasher has been given, in order.
pub uninterp spec fn xxh3_input(h: Xxh3) -> Seq<u8>;

/// The XXH3-128 hash, with seed 0 and the default secret, of a byte string.
pub uninterp spec fn xxh3_128(data: Seq<u8>) -> u128;

/// `Xxh3::new` gives a hasher that has been given nothing.
pub assume_specification[ Xxh3::new ]() -> (h: Xxh3)
    ensures
        xxh3_input(h) == Seq::<u8>::empty(),
;

/// `Xxh3::update` gives a hasher more bytes, behind those it has.
pub assume_specification[ Xxh3::update ](h: &mut Xxh3, input: &[u8])
    ensures
        xxh3_input(*final(h)) == xxh3_input(*old(h)) + input@,
;

/// `Xxh3::digest128` gives the hash of everything the hasher has been given:
/// however the bytes came in, the hash is that of them all.
pub assume_specification[ Xxh3::digest128 ](h: &Xxh3) -> (d: u128)
    ensures
        d == xxh3_128(xxh3_input(*h)),
;

/// The checksum of a byte string as it is stored: sixteen bytes, least
/// significant first.
pub open spec fn digest(data: Seq<u8>) -> Seq<u8> {
    bytes::le_bytes(xxh3_128(data) as nat, 16)
}

/// The checksum of everything the hasher has been given, as it is stored.
pub fn stored_digest(h: &Xxh3) -> (r: [u8; 16])
    ensures
        r@ == digest(xxh3_input(*h)),
{
    let d: u128 = h.digest128();
    let mut v: Vec<u8> = Vec::new();
    bytes::push_le(&mut v, d, 16);
    proof {
        bytes::lemma_le_bytes_len(d as nat, 16);
        assert(v@ =~= bytes::le_bytes(d as nat, 16));
    }
    bytes::to_array16(v.as_slice())
}

} // verus!
