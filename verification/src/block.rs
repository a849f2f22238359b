use vstd::prelude::*;
use crate::bytes::{u64_le_bytes, u64_from_le_bytes, u64_to_le, u64_from_le, copy_range, lemma_u64_le_bytes_of_value, lemma_u64_le_round_trip};

verus! {

/// The mathematical content of a block: what its five fields hold.
#[verifier::ext_equal]
pub struct BlockModel {
    pub timestamp: u64,
    pub data: Seq<u8>,
    pub prev_block_hash: Seq<u8>,
    pub hash: Seq<u8>,
    pub nonce: u64,
}

/// A block is well formed when its two hash fields have the fixed width.
pub open spec fn wf_block(m: BlockModel) -> bool {
    &&& m.prev_block_hash.len() == 32
    &&& m.hash.len() == 32
}

/// One record of the chain: an opaque payload, the moment it was mined,
/// a link to its predecessor, its own digest, and the winning nonce.
pub struct Block {
    pub(crate) timestamp: u64,
    pub(crate) data: Vec<u8>,
    pub(crate) prev_block_hash: Vec<u8>,
    pub(crate) hash: Vec<u8>,
    pub(crate) nonce: u64,
}

impl View for Block {
    type V = BlockModel;

    closed spec fn view(&self) -> BlockModel {
        BlockModel {
            timestamp: self.timestamp,
            data: self.data@,
            prev_block_hash: self.prev_block_hash@,
            hash: self.hash@,
            nonce: self.nonce,
        }
    }
}

impl Block {
    /// Seconds since the Unix epoch at which the block was mined.
    pub fn timestamp(&self) -> (r: u64)
        ensures
            r == self@.timestamp,
    {
        self.timestamp
    }

    /// The payload carried by the block.
    pub fn data(&self) -> (r: &Vec<u8>)
        ensures
            r@ == self@.data,
    {
        &self.data
    }

    /// The hash of the preceding block, or the zero sentinel for genesis.
    pub fn prev_block_hash(&self) -> (r: &[u8])
        ensures
            r@ == self@.prev_block_hash,
    {
        self.prev_block_hash.as_slice()
    }

    /// The block's own digest, which is also its storage key.
    pub fn hash(&self) -> (r: &[u8])
        ensures
            r@ == self@.hash,
    {
        self.hash.as_slice()
    }

    /// The search counter for which the digest fell below the target.
    pub fn nonce(&self) -> (r: u64)
        ensures
            r == self@.nonce,
    {
        self.nonce
    }
}

/// The exact byte form a block is persisted in: timestamp, nonce and
/// payload length as little-endian 64-bit words, then the payload, the
/// predecessor hash and the block's own hash.
pub open spec fn encode_spec(m: BlockModel) -> Seq<u8> {
    u64_le_bytes(m.timestamp) + u64_le_bytes(m.nonce) + u64_le_bytes(m.data.len() as u64)
        + m.data + m.prev_block_hash + m.hash
}

impl Block {
    /// Emits the block's exact persisted byte form.
    pub fn serialize(&self) -> (r: Vec<u8>)
        ensures
            r@ == encode_spec(self@),
    {
        let mut out = u64_to_le(self.timestamp);
        let mut nonce_bytes = u64_to_le(self.nonce);
        out.append(&mut nonce_bytes);
        let mut len_bytes = u64_to_le(self.data.len() as u64);
        out.append(&mut len_bytes);
        out.extend_from_slice(self.data.as_slice());
        out.extend_from_slice(self.prev_block_hash.as_slice());
        out.extend_from_slice(self.hash.as_slice());
        proof {
            assert(out@ == encode_spec(self@));
        }
        out
    }

    /// Reads a block back from its persisted byte form. Returns the
    /// corruption error exactly when no well-formed block serializes to
    /// these bytes.
    pub fn deserialize(data: &[u8]) -> (r: Result<Block, crate::ChainError>)
        ensures
            r matches Ok(b) ==> wf_block(b@) && encode_spec(b@) == data@,
            forall|m: BlockModel| wf_block(m) && encode_spec(m) == data@ ==> r is Ok,
            r is Err ==> r == Err::<Block, crate::ChainError>(crate::ChainError::CorruptChain),
    {
        let n = data.len();
        if n < 88 {
            proof {
                assert forall|m: BlockModel| wf_block(m) && encode_spec(m) == data@ implies false by {
                    assert(encode_spec(m).len() == 88 + m.data.len());
                }
            }
            return Err(crate::ChainError::CorruptChain);
        }
        let timestamp = u64_from_le(data, 0);
        let nonce = u64_from_le(data, 8);
        let len_field = u64_from_le(data, 16);
        let payload_len = n - 88;
        if len_field != payload_len as u64 {
            proof {
                assert forall|m: BlockModel| wf_block(m) && encode_spec(m) == data@ implies false by {
                    lemma_block_fields_from_encoding(m, data@);
                    lemma_u64_le_round_trip(m.data.len() as u64);
                    assert(len_field == u64_from_le_bytes(data@.subrange(16, 24)));
                    assert(m.data.len() == n - 88);
                    assert(len_field == m.data.len() as u64);
                }
            }
            return Err(crate::ChainError::CorruptChain);
        }
        let payload = copy_range(data, 24, 24 + payload_len);
        let prev_block_hash = copy_range(data, 24 + payload_len, 56 + payload_len);
        let hash = copy_range(data, 56 + payload_len, 88 + payload_len);
        let b = Block { timestamp, data: payload, prev_block_hash, hash, nonce };
        proof {
            let s = data@;
            lemma_u64_le_bytes_of_value(s[0], s[1], s[2], s[3], s[4], s[5], s[6], s[7]);
            lemma_u64_le_bytes_of_value(s[8], s[9], s[10], s[11], s[12], s[13], s[14], s[15]);
            lemma_u64_le_bytes_of_value(s[16], s[17], s[18], s[19], s[20], s[21], s[22], s[23]);
            assert(s.subrange(0, 8) =~= seq![s[0], s[1], s[2], s[3], s[4], s[5], s[6], s[7]]);
            assert(s.subrange(8, 16) =~= seq![s[8], s[9], s[10], s[11], s[12], s[13], s[14], s[15]]);
            assert(s.subrange(16, 24) =~= seq![s[16], s[17], s[18], s[19], s[20], s[21], s[22], s[23]]);
            assert(u64_le_bytes(timestamp) == s.subrange(0, 8));
            assert(u64_le_bytes(nonce) == s.subrange(8, 16));
            assert(u64_le_bytes(b@.data.len() as u64) == s.subrange(16, 24));
            assert(encode_spec(b@) =~= s);
        }
        Ok(b)
    }
}

impl Block {
    /// Relies on std::time::SystemTime::now for the current second of
    /// the Unix epoch; nothing is assumed of the value.
    #[verifier::external_body]
    pub(crate) fn now_unix_seconds() -> u64 {
        match std::time::SystemTime::now().duration_since(std::time::SystemTime::UNIX_EPOCH) {
            Ok(d) => d.as_secs(),
            Err(_) => 0,
        }
    }

    /// Mines a block over the given payload, predecessor and timestamp at
    /// a chosen difficulty. Succeeds exactly when some nonce in the
    /// 64-bit space makes the digest meet the target, and then carries
    /// the smallest such nonce.
    pub fn with_timestamp(
        data: &[u8],
        prev_block_hash: &[u8],
        timestamp: u64,
        difficulty: u64,
    ) -> (r: Result<Block, crate::ChainError>)
        requires
            prev_block_hash@.len() == 32,
            1 <= difficulty <= 64,
        ensures
            r matches Ok(b) ==> {
                &&& wf_block(b@)
                &&& b@.timestamp == timestamp
                &&& b@.data == data@
                &&& b@.prev_block_hash == prev_block_hash@
                &&& crate::proofofwork::pow_valid(b@, difficulty as nat)
                &&& forall|m: u64|
                    m < b@.nonce ==> !crate::proofofwork::hash_meets_target(
                        crate::digest::block_digest(timestamp, data@, prev_block_hash@, m),
                        difficulty as nat,
                    )
            },
            r is Err ==> {
                &&& r == Err::<Block, crate::ChainError>(crate::ChainError::MiningExhausted)
                &&& forall|m: u64|
                    !crate::proofofwork::hash_meets_target(
                        crate::digest::block_digest(timestamp, data@, prev_block_hash@, m),
                        difficulty as nat,
                    )
            },
    {
        match crate::proofofwork::mine(timestamp, data, prev_block_hash, difficulty) {
            Ok(p) => {
                let (nonce, hash) = p;
                let b = Block {
                    timestamp,
                    data: vstd::slice::slice_to_vec(data),
                    prev_block_hash: vstd::slice::slice_to_vec(prev_block_hash),
                    hash,
                    nonce,
                };
                Ok(b)
            },
            Err(e) => Err(e),
        }
    }

    /// Captures the current time and mines a block holding `data`,
    /// linked to `prev_block_hash`, at the configured difficulty.
    pub fn new(data: &[u8], prev_block_hash: &[u8]) -> (r: Result<Block, crate::ChainError>)
        requires
            prev_block_hash@.len() == 32,
        ensures
            r matches Ok(b) ==> {
                &&& wf_block(b@)
                &&& b@.data == data@
                &&& b@.prev_block_hash == prev_block_hash@
                &&& crate::proofofwork::pow_valid(b@, crate::DIFFICULTY as nat)
            },
            r is Err ==> r == Err::<Block, crate::ChainError>(crate::ChainError::MiningExhausted),
    {
        let timestamp = Self::now_unix_seconds();
        Self::with_timestamp(data, prev_block_hash, timestamp, crate::DIFFICULTY)
    }
}

/// From an encoding, each field of the encoded block is the matching
/// slice of the bytes.
pub proof fn lemma_block_fields_from_encoding(m: BlockModel, s: Seq<u8>)
    requires
        wf_block(m),
        encode_spec(m) == s,
    ensures
        s.len() == 88 + m.data.len(),
        u64_le_bytes(m.timestamp) == s.subrange(0, 8),
        u64_le_bytes(m.nonce) == s.subrange(8, 16),
        u64_le_bytes(m.data.len() as u64) == s.subrange(16, 24),
        m.data == s.subrange(24, 24 + m.data.len() as int),
        m.prev_block_hash == s.subrange(24 + m.data.len() as int, 56 + m.data.len() as int),
        m.hash == s.subrange(56 + m.data.len() as int, 88 + m.data.len() as int),
{
    let len = m.data.len() as int;
    assert(s.len() == 88 + m.data.len());
    assert(u64_le_bytes(m.timestamp) =~= s.subrange(0, 8));
    assert(u64_le_bytes(m.nonce) =~= s.subrange(8, 16));
    assert(u64_le_bytes(m.data.len() as u64) =~= s.subrange(16, 24));
    assert(m.data =~= s.subrange(24, 24 + len));
    assert(m.prev_block_hash =~= s.subrange(24 + len, 56 + len));
    assert(m.hash =~= s.subrange(56 + len, 88 + len));
}

/// The round-trip law: the persisted byte form determines every field of
/// a well-formed block, so reading a serialized block back yields a block
/// equal to the original in every field.
pub proof fn lemma_encode_injective(a: BlockModel, b: BlockModel)
    requires
        wf_block(a),
        wf_block(b),
        encode_spec(a) == encode_spec(b),
    ensures
        a == b,
{
    let s = encode_spec(a);
    lemma_block_fields_from_encoding(a, s);
    lemma_block_fields_from_encoding(b, s);
    lemma_u64_le_round_trip(a.timestamp);
    lemma_u64_le_round_trip(b.timestamp);
    lemma_u64_le_round_trip(a.nonce);
    lemma_u64_le_round_trip(b.nonce);
    assert(a =~= b);
}

} // verus!
