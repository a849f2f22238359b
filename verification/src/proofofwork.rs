use vstd::prelude::*;
use vstd::arithmetic::power2::{pow2, lemma_pow2_adds, lemma_pow2_strictly_increases, lemma2_to64};
use vstd::arithmetic::mul::lemma_mul_inequality;
use crate::bytes::{be_val, lemma_be_val_bound, bytes_eq};
use crate::digest::{block_digest, compute_block_digest};
use crate::block::{Block, BlockModel};
use crate::{ChainError, DIFFICULTY};

verus! {

/// The digest a block with these fields would have under `nonce`.
pub open spec fn candidate_digest(b: BlockModel, nonce: u64) -> Seq<u8> {
    block_digest(b.timestamp, b.data, b.prev_block_hash, nonce)
}

/// The target condition at difficulty `d`: the hash has the fixed width
/// and opens with `d` zero hexadecimal digits. By
/// `lemma_target_numeric` this says exactly that the hash, read as a
/// big-endian 256-bit integer, is strictly below 2^(256 - 4 d).
pub open spec fn hash_meets_target(h: Seq<u8>, d: nat) -> bool
    recommends
        1 <= d <= 64,
{
    &&& h.len() == 32
    &&& forall|i: int| 0 <= i < d / 2 ==> h[i] == 0u8
    &&& (d % 2 == 1 ==> h[d as int / 2] < 16)
}

/// A block is legitimately mined when its stored hash is the digest of
/// its own fields under its stored nonce, and that hash meets the target.
pub open spec fn pow_valid(b: BlockModel, d: nat) -> bool {
    &&& b.hash == candidate_digest(b, b.nonce)
    &&& hash_meets_target(b.hash, d)
}

/// Checks the target condition on a hash.
pub fn meets_target(h: &[u8], difficulty: u64) -> (r: bool)
    requires
        1 <= difficulty <= 64,
    ensures
        r == hash_meets_target(h@, difficulty as nat),
{
    if h.len() != 32 {
        return false;
    }
    let k = (difficulty / 2) as usize;
    let mut i: usize = 0;
    while i < k
        invariant
            i <= k <= 32,
            1 <= difficulty <= 64,
            k == difficulty as int / 2,
            h@.len() == 32,
            forall|j: int| 0 <= j < i ==> h@[j] == 0u8,
        decreases k - i,
    {
        if h[i] != 0 {
            return false;
        }
        i = i + 1;
    }
    if difficulty % 2 == 1 && h[k] >= 16 {
        return false;
    }
    true
}

/// The first `k` bytes are zero exactly when the value is below 2^(8 (n-k)).
proof fn lemma_prefix_zero_equiv(s: Seq<u8>, k: int)
    requires
        0 <= k <= s.len(),
    ensures
        (forall|i: int| 0 <= i < k ==> s[i] == 0u8) <==> be_val(s) < pow2((8 * (s.len() - k)) as nat),
    decreases k,
{
    if k == 0 {
        lemma_be_val_bound(s);
    } else {
        let rest = s.skip(1);
        let p = pow2((8 * (s.len() - 1)) as nat);
        lemma_be_val_bound(rest);
        lemma_prefix_zero_equiv(rest, k - 1);
        vstd::arithmetic::power2::lemma_pow2_pos((8 * (s.len() - 1)) as nat);
        if k > 1 {
            lemma_pow2_strictly_increases((8 * (s.len() - k)) as nat, (8 * (s.len() - 1)) as nat);
        }
        assert(pow2((8 * (s.len() - k)) as nat) <= p);
        assert(forall|i: int| 0 <= i < rest.len() ==> rest[i] == s[i + 1]);
        if forall|i: int| 0 <= i < k ==> s[i] == 0u8 {
            assert(s[0] == 0);
            assert(forall|i: int| 0 <= i < k - 1 ==> rest[i] == 0u8);
            assert(be_val(s) == be_val(rest));
        }
        if be_val(s) < pow2((8 * (s.len() - k)) as nat) {
            if s[0] != 0 {
                lemma_mul_inequality(1, s[0] as int, p as int);
                assert(be_val(s) >= p);
            }
            assert(s[0] == 0u8);
            assert(be_val(s) == be_val(rest));
            assert(forall|i: int| 0 <= i < k - 1 ==> rest[i] == 0u8);
            assert(forall|i: int| 1 <= i < k ==> s[i] == rest[i - 1]);
        }
    }
}

/// With the first `k` bytes zero, the value drops below a half-byte
/// target exactly when the next byte is a single hexadecimal digit.
proof fn lemma_half_byte_equiv(s: Seq<u8>, k: int)
    requires
        0 <= k < s.len(),
        forall|i: int| 0 <= i < k ==> s[i] == 0u8,
    ensures
        (s[k] < 16) <==> be_val(s) < pow2((8 * (s.len() - k) - 4) as nat),
    decreases k,
{
    if k == 0 {
        let rest = s.skip(1);
        let p = pow2((8 * (s.len() - 1)) as nat);
        lemma_be_val_bound(rest);
        lemma_pow2_adds(4, (8 * (s.len() - 1)) as nat);
        lemma2_to64();
        assert(pow2((8 * s.len() - 4) as nat) == 16 * p);
        if s[0] < 16 {
            lemma_mul_inequality(s[0] as int, 15, p as int);
            assert(be_val(s) <= 15 * p + (p - 1));
        } else {
            lemma_mul_inequality(16, s[0] as int, p as int);
            assert(be_val(s) >= 16 * p);
        }
    } else {
        let rest = s.skip(1);
        assert(forall|i: int| 0 <= i < rest.len() ==> rest[i] == s[i + 1]);
        assert(forall|i: int| 0 <= i < k - 1 ==> rest[i] == 0u8);
        lemma_half_byte_equiv(rest, k - 1);
        assert(s[0] == 0);
        assert(be_val(s) == be_val(rest));
        assert(rest[k - 1] == s[k]);
    }
}

/// The numeric reading of the target: a hash meets difficulty `d`
/// exactly when its value as a big-endian 256-bit unsigned integer is
/// strictly less than 1 shifted left by (256 - 4 d) bits.
pub proof fn lemma_target_numeric(h: Seq<u8>, d: nat)
    requires
        h.len() == 32,
        1 <= d <= 64,
    ensures
        hash_meets_target(h, d) <==> be_val(h) < pow2((256 - 4 * d) as nat),
{
    let k = (d / 2) as int;
    if d % 2 == 0 {
        lemma_prefix_zero_equiv(h, k);
        assert(8 * (h.len() - k) == 256 - 4 * d);
    } else {
        lemma_prefix_zero_equiv(h, k);
        assert(8 * (h.len() - k) == 256 - 4 * d + 4);
        if hash_meets_target(h, d) {
            lemma_half_byte_equiv(h, k);
        }
        if be_val(h) < pow2((256 - 4 * d) as nat) {
            lemma_pow2_strictly_increases((256 - 4 * d) as nat, (256 - 4 * d + 4) as nat);
            assert(forall|i: int| 0 <= i < k ==> h[i] == 0u8);
            lemma_half_byte_equiv(h, k);
        }
    }
}

/// Whatever passes at a higher difficulty passes at a lower one: raising
/// the difficulty only shrinks the set of acceptable hashes.
pub proof fn lemma_difficulty_monotonic(h: Seq<u8>, d1: nat, d2: nat)
    requires
        1 <= d1 <= d2 <= 64,
        hash_meets_target(h, d2),
    ensures
        hash_meets_target(h, d1),
{
    if d1 % 2 == 1 {
        let k = d1 as int / 2;
        if k < d2 / 2 {
            assert(h[k] == 0u8);
        }
    }
}

/// Raising the difficulty strictly shrinks the set of acceptable hashes:
/// some hash passes at the lower difficulty but no longer at the higher.
pub proof fn lemma_higher_difficulty_strictly_harder(d1: nat, d2: nat)
    requires
        1 <= d1 < d2 <= 64,
    ensures
        exists|h: Seq<u8>| hash_meets_target(h, d1) && !hash_meets_target(h, d2),
{
    let k = (d1 / 2) as int;
    let filler: u8 = if d1 % 2 == 1 { 15u8 } else { 255u8 };
    let h = Seq::<u8>::new(32, |i: int| if i < k { 0u8 } else if i == k { filler } else { 255u8 });
    assert(hash_meets_target(h, d1));
    assert(!hash_meets_target(h, d2)) by {
        if d1 % 2 == 1 {
            assert(d2 / 2 >= k + 1);
            assert(h[k] != 0u8);
        } else {
            if d2 / 2 > k {
                assert(h[k] != 0u8);
            } else {
                assert(d2 == 2 * (d2 / 2) + (d2 % 2) && d1 == 2 * (d1 / 2));
                assert(d2 % 2 == 1 && d2 / 2 == k);
                assert(h[k] >= 16);
            }
        }
    }
}

/// The proof-of-work engine for one block: the block under search or
/// validation, and the difficulty the target is derived from.
pub struct ProofOfWork<'a> {
    pub block: &'a Block,
    pub difficulty: u64,
}

impl<'a> ProofOfWork<'a> {
    /// Sets up the search for `block` at the configured difficulty.
    pub fn new(block: &'a Block) -> (r: Self)
        ensures
            r.block@ == block@,
            r.difficulty == DIFFICULTY,
    {
        ProofOfWork { block, difficulty: DIFFICULTY }
    }

    /// Sets up the search for `block` at a chosen difficulty.
    pub fn with_difficulty(block: &'a Block, difficulty: u64) -> (r: Self)
        requires
            1 <= difficulty <= 64,
        ensures
            r.block@ == block@,
            r.difficulty == difficulty,
    {
        ProofOfWork { block, difficulty }
    }

    /// The digest of the block's fields under the given nonce.
    pub fn calculate_hash(&self, nonce: u64) -> (r: Vec<u8>)
        ensures
            r@ == candidate_digest(self.block@, nonce),
            r@.len() == 32,
    {
        compute_block_digest(
            self.block.timestamp(),
            self.block.data().as_slice(),
            self.block.prev_block_hash(),
            nonce,
        )
    }

    /// Searches nonce values from zero upward and returns the first
    /// passing pair; reports exhaustion exactly when no nonce in the
    /// whole 64-bit space produces a digest below the target.
    pub fn run(&self) -> (r: Result<(u64, Vec<u8>), ChainError>)
        requires
            1 <= self.difficulty <= 64,
        ensures
            r matches Ok(p) ==> {
                &&& p.1@ == candidate_digest(self.block@, p.0)
                &&& hash_meets_target(p.1@, self.difficulty as nat)
                &&& forall|m: u64|
                    m < p.0 ==> !hash_meets_target(
                        candidate_digest(self.block@, m),
                        self.difficulty as nat,
                    )
            },
            r is Err ==> {
                &&& r == Err::<(u64, Vec<u8>), ChainError>(ChainError::MiningExhausted)
                &&& forall|m: u64|
                    !hash_meets_target(candidate_digest(self.block@, m), self.difficulty as nat)
            },
    {
        mine(
            self.block.timestamp(),
            self.block.data().as_slice(),
            self.block.prev_block_hash(),
            self.difficulty,
        )
    }

    /// Recomputes the digest at the block's stored nonce and checks the
    /// stored hash against it and against the target; true exactly for a
    /// legitimately mined block.
    pub fn validate(&self) -> (r: bool)
        requires
            1 <= self.difficulty <= 64,
        ensures
            r == pow_valid(self.block@, self.difficulty as nat),
    {
        let digest = self.calculate_hash(self.block.nonce());
        if !bytes_eq(digest.as_slice(), self.block.hash()) {
            return false;
        }
        meets_target(self.block.hash(), self.difficulty)
    }
}

/// Searches nonce values from zero upward over the given block fields
/// and returns the first passing pair; reports exhaustion exactly when
/// no nonce in the whole 64-bit space produces a digest below the target.
pub fn mine(timestamp: u64, data: &[u8], prev: &[u8], difficulty: u64) -> (r: Result<
    (u64, Vec<u8>),
    ChainError,
>)
    requires
        1 <= difficulty <= 64,
    ensures
        r matches Ok(p) ==> {
            &&& p.1@ == block_digest(timestamp, data@, prev@, p.0)
            &&& hash_meets_target(p.1@, difficulty as nat)
            &&& forall|m: u64|
                m < p.0 ==> !hash_meets_target(
                    block_digest(timestamp, data@, prev@, m),
                    difficulty as nat,
                )
        },
        r is Err ==> {
            &&& r == Err::<(u64, Vec<u8>), ChainError>(ChainError::MiningExhausted)
            &&& forall|m: u64|
                !hash_meets_target(block_digest(timestamp, data@, prev@, m), difficulty as nat)
        },
{
    let mut nonce: u64 = 0;
    while nonce < u64::MAX
        invariant
            1 <= difficulty <= 64,
            forall|m: u64|
                m < nonce ==> !hash_meets_target(
                    block_digest(timestamp, data@, prev@, m),
                    difficulty as nat,
                ),
        decreases u64::MAX - nonce,
    {
        let digest = compute_block_digest(timestamp, data, prev, nonce);
        if meets_target(digest.as_slice(), difficulty) {
            return Ok((nonce, digest));
        }
        nonce = nonce + 1;
    }
    let digest = compute_block_digest(timestamp, data, prev, nonce);
    if meets_target(digest.as_slice(), difficulty) {
        return Ok((nonce, digest));
    }
    proof {
        assert forall|m: u64|
            !hash_meets_target(block_digest(timestamp, data@, prev@, m), difficulty as nat) by {
            if m < u64::MAX {
            } else {
                assert(m == nonce);
            }
        }
    }
    Err(ChainError::MiningExhausted)
}

/// The search law: the nonce and digest found by the search always
/// validate, so a block carrying them passes the proof-of-work check.
pub proof fn lemma_search_result_validates(b: BlockModel, d: nat)
    requires
        b.hash == candidate_digest(b, b.nonce),
        hash_meets_target(b.hash, d),
    ensures
        pow_valid(b, d),
{
}

/// The self-consistency law: hashing a valid block's fields with its
/// stored nonce reproduces its stored hash exactly.
pub proof fn lemma_valid_block_self_consistent(b: BlockModel, d: nat)
    requires
        pow_valid(b, d),
    ensures
        b.hash == block_digest(b.timestamp, b.data, b.prev_block_hash, b.nonce),
{
}

} // verus!
