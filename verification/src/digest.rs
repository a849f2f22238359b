use vstd::prelude::*;
use crate::bytes::{dec_bytes, u64_le_bytes, u64_to_dec, u64_to_le};

verus! {

/// The SHA-256 digest of a byte string; a function of the input alone.
pub uninterp spec fn sha256_of(input: Seq<u8>) -> Seq<u8>;

/// Relies on sha2::Sha256::digest: SHA-256 depends on the input bytes
/// alone, and its output is always exactly 32 bytes long.
#[verifier::external_body]
fn sha256(input: &Vec<u8>) -> (r: Vec<u8>)
    ensures
        r@ == sha256_of(input@),
        r@.len() == 32,
{
    <sha2::Sha256 as sha2::Digest>::digest(input.as_slice()).to_vec()
}

/// The byte string a block is hashed over: the decimal form of its
/// timestamp, the raw payload, the raw predecessor hash, and the
/// little-endian nonce, in that fixed order.
pub open spec fn digest_input(timestamp: u64, payload: Seq<u8>, prev: Seq<u8>, nonce: u64) -> Seq<u8> {
    dec_bytes(timestamp) + payload + prev + u64_le_bytes(nonce)
}

/// The digest that identifies a block with the given fields and nonce.
pub open spec fn block_digest(timestamp: u64, payload: Seq<u8>, prev: Seq<u8>, nonce: u64) -> Seq<u8> {
    sha256_of(digest_input(timestamp, payload, prev, nonce))
}

/// Computes the digest over the four block components in their fixed order.
pub fn compute_block_digest(timestamp: u64, payload: &[u8], prev: &[u8], nonce: u64) -> (r: Vec<u8>)
    ensures
        r@ == block_digest(timestamp, payload@, prev@, nonce),
        r@.len() == 32,
{
    let mut input = u64_to_dec(timestamp);
    input.extend_from_slice(payload);
    input.extend_from_slice(prev);
    let mut tail = u64_to_le(nonce);
    input.append(&mut tail);
    proof {
        assert(input@ == digest_input(timestamp, payload@, prev@, nonce));
    }
    sha256(&input)
}

} // verus!
