use vstd::bytes::*;
use vstd::prelude::*;

verus! {

/// The BLAKE3 digest of some bytes.
pub uninterp spec fn blake3_hash_of(input: Seq<u8>) -> Seq<u8>;

/// The keyed BLAKE3 digest of some bytes under a 32-byte key.
pub uninterp spec fn blake3_keyed_hash_of(key: Seq<u8>, input: Seq<u8>) -> Seq<u8>;

/// Relies on blake3::hash: the 32-byte digest, which depends on the input alone.
#[verifier::external_body]
fn blake3_hash(input: &[u8]) -> (r: [u8; 32])
    ensures
        r@ == blake3_hash_of(input@),
{
    *blake3::hash(input).as_bytes()
}

/// Relies on blake3::keyed_hash: the 32-byte keyed digest, which depends on
/// the key and the input alone.
#[verifier::external_body]
fn blake3_keyed_hash(key: &[u8; 32], input: &[u8]) -> (r: [u8; 32])
    ensures
        r@ == blake3_keyed_hash_of(key@, input@),
{
    *blake3::keyed_hash(key, input).as_bytes()
}

/// The derived key under which a caller key's value, or the header of a
/// chunked value, is stored.
pub open spec fn atomic_key_of(key: Seq<u8>) -> Seq<u8> {
    blake3_hash_of(key)
}

/// The derived key under which chunk `index` of a caller key's value is stored.
pub open spec fn chunk_key_of(parent: Seq<u8>, index: u64) -> Seq<u8> {
    blake3_keyed_hash_of(parent, spec_u64_to_le_bytes(index))
}

/// The derived key for a caller key: its BLAKE3 digest.
pub fn atomic_key(key: &[u8; 32]) -> (r: [u8; 32])
    ensures
        r@ == atomic_key_of(key@),
{
    blake3_hash(key.as_slice())
}

/// The derived key for chunk `index` of a caller key's value: the keyed
/// BLAKE3 digest of the index's eight little-endian bytes under the caller key.
pub fn chunk_key(parent: &[u8; 32], index: u64) -> (r: [u8; 32])
    ensures
        r@ == chunk_key_of(parent@, index),
{
    let bytes = u64_to_le_bytes(index);
    blake3_keyed_hash(parent, bytes.as_slice())
}

} // verus!
