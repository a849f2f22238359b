use rustchain::block::Block;
use rustchain::bytes::{bytes_eq, copy_range, u64_from_le, u64_to_dec, u64_to_le, zero_hash};
use rustchain::proofofwork::{meets_target, mine, ProofOfWork};
use rustchain::ChainError;

#[test]
fn le_bytes_round_trip() {
    let v = u64_to_le(0x0123_4567_89ab_cdef);
    assert_eq!(v, vec![0xef, 0xcd, 0xab, 0x89, 0x67, 0x45, 0x23, 0x01]);
    assert_eq!(u64_from_le(v.as_slice(), 0), 0x0123_4567_89ab_cdef);
}

#[test]
fn decimal_formatting() {
    assert_eq!(u64_to_dec(0), b"0".to_vec());
    assert_eq!(u64_to_dec(7), b"7".to_vec());
    assert_eq!(u64_to_dec(1234567890), b"1234567890".to_vec());
    assert_eq!(u64_to_dec(u64::MAX), b"18446744073709551615".to_vec());
}

#[test]
fn zero_hash_is_32_zero_bytes() {
    let z = zero_hash();
    assert_eq!(z.len(), 32);
    assert!(z.iter().all(|b| *b == 0));
}

#[test]
fn byte_helpers() {
    assert!(bytes_eq(b"abc", b"abc"));
    assert!(!bytes_eq(b"abc", b"abd"));
    assert!(!bytes_eq(b"abc", b"ab"));
    assert_eq!(copy_range(b"hello world", 6, 11), b"world".to_vec());
}

#[test]
fn target_check_on_concrete_hashes() {
    let mut h = vec![0u8; 32];
    // All zero: passes every difficulty.
    assert!(meets_target(h.as_slice(), 1));
    assert!(meets_target(h.as_slice(), 64));
    // One hexadecimal digit of leeway.
    h[0] = 0x0f;
    assert!(meets_target(h.as_slice(), 1));
    assert!(!meets_target(h.as_slice(), 2));
    h[0] = 0x10;
    assert!(!meets_target(h.as_slice(), 1));
    // Two zero bytes then a large one: four digits but not five.
    let mut h = vec![0xffu8; 32];
    h[0] = 0;
    h[1] = 0;
    assert!(meets_target(h.as_slice(), 4));
    assert!(!meets_target(h.as_slice(), 5));
    // A hash that is not 32 bytes wide never passes.
    assert!(!meets_target(b"short", 1));
}

#[test]
fn mining_finds_first_passing_nonce() {
    let prev = zero_hash();
    let (nonce, hash) = mine(1_600_000_000, b"hello", prev.as_slice(), 1).unwrap();
    assert_eq!(hash.len(), 32);
    assert!(meets_target(hash.as_slice(), 1));
    // Every earlier nonce must fail the target.
    let b = Block::with_timestamp(b"hello", prev.as_slice(), 1_600_000_000, 1).unwrap();
    assert_eq!(b.nonce(), nonce);
    let pow = ProofOfWork::with_difficulty(&b, 1);
    for m in 0..nonce {
        assert!(!meets_target(pow.calculate_hash(m).as_slice(), 1));
    }
}

#[test]
fn search_result_validates() {
    let prev = zero_hash();
    let b = Block::with_timestamp(b"some payload", prev.as_slice(), 1_700_000_000, 2).unwrap();
    let pow = ProofOfWork::with_difficulty(&b, 2);
    assert!(pow.validate());
}

#[test]
fn stored_hash_is_digest_of_fields() {
    let prev = zero_hash();
    let b = Block::with_timestamp(b"self consistent", prev.as_slice(), 1_700_000_001, 2).unwrap();
    let pow = ProofOfWork::with_difficulty(&b, 2);
    let recomputed = pow.calculate_hash(b.nonce());
    assert_eq!(recomputed, b.hash().to_vec());
}

#[test]
fn tampered_block_fails_validation() {
    let prev = zero_hash();
    let b = Block::with_timestamp(b"original payload", prev.as_slice(), 1_700_000_002, 2).unwrap();
    // A block with the same hash but another payload must not validate.
    let mut bytes = b.serialize();
    // The payload starts at offset 24; flip one byte of it.
    bytes[24] ^= 0xff;
    let forged = Block::deserialize(bytes.as_slice()).unwrap();
    let pow = ProofOfWork::with_difficulty(&forged, 2);
    assert!(!pow.validate());
}

#[test]
fn serialize_deserialize_round_trip() {
    let prev: Vec<u8> = (0u8..32).collect();
    let b = Block::with_timestamp(b"round trip payload", prev.as_slice(), 1_699_999_999, 1).unwrap();
    let bytes = b.serialize();
    let d = Block::deserialize(bytes.as_slice()).unwrap();
    assert_eq!(d.timestamp(), b.timestamp());
    assert_eq!(d.data(), b.data());
    assert_eq!(d.prev_block_hash(), b.prev_block_hash());
    assert_eq!(d.hash(), b.hash());
    assert_eq!(d.nonce(), b.nonce());
}

#[test]
fn round_trip_of_empty_payload() {
    let prev = zero_hash();
    let b = Block::with_timestamp(b"", prev.as_slice(), 0, 1).unwrap();
    let d = Block::deserialize(b.serialize().as_slice()).unwrap();
    assert_eq!(d.data().len(), 0);
    assert_eq!(d.hash(), b.hash());
    assert_eq!(d.nonce(), b.nonce());
}

#[test]
fn deserialize_rejects_malformed_bytes() {
    assert!(matches!(Block::deserialize(b"way too short"), Err(ChainError::CorruptChain)));
    let prev = zero_hash();
    let b = Block::with_timestamp(b"payload", prev.as_slice(), 5, 1).unwrap();
    let mut bytes = b.serialize();
    // Corrupt the payload length field at offset 16.
    bytes[16] = bytes[16].wrapping_add(1);
    assert!(matches!(Block::deserialize(bytes.as_slice()), Err(ChainError::CorruptChain)));
    // Truncating the buffer breaks the length bookkeeping too.
    bytes.truncate(90);
    assert!(matches!(Block::deserialize(bytes.as_slice()), Err(ChainError::CorruptChain)));
}

#[test]
fn higher_difficulty_takes_more_search_iterations() {
    let prev = zero_hash();
    let mut low_total: u64 = 0;
    let mut high_total: u64 = 0;
    for ts in 0..5u64 {
        let low = Block::with_timestamp(b"difficulty probe", prev.as_slice(), ts, 1).unwrap();
        let high = Block::with_timestamp(b"difficulty probe", prev.as_slice(), ts, 4).unwrap();
        low_total += low.nonce();
        high_total += high.nonce();
    }
    assert!(high_total > low_total);
}
