use vstd::prelude::*;
use crate::block::{Block, BlockModel, wf_block, encode_spec, lemma_encode_injective};
use crate::bytes::{zero_hash, zero_hash_seq, bytes_eq};
use crate::proofofwork::pow_valid;
use crate::store::{KvStore, kv_contents, kv_empty, kv_open, kv_open_temporary, kv_get, kv_insert};
use crate::{ChainError, DIFFICULTY};

verus! {

/// The reserved key under which the tip hash is stored: the single
/// byte `l`.
pub open spec fn tip_key_seq() -> Seq<u8> {
    seq![108u8]
}

/// Builds the reserved tip key.
pub fn tip_key() -> (r: Vec<u8>)
    ensures
        r@ == tip_key_seq(),
{
    let mut v: Vec<u8> = Vec::new();
    v.push(108u8);
    proof {
        assert(v@ =~= tip_key_seq());
    }
    v
}

/// The payload of the genesis block: the bytes of "Genesis Block".
pub open spec fn genesis_payload_seq() -> Seq<u8> {
    seq![71u8, 101u8, 110u8, 101u8, 115u8, 105u8, 115u8, 32u8, 66u8, 108u8, 111u8, 99u8, 107u8]
}

/// Builds the genesis payload.
pub fn genesis_payload() -> (r: Vec<u8>)
    ensures
        r@ == genesis_payload_seq(),
{
    let v: Vec<u8> = vec![71u8, 101u8, 110u8, 101u8, 115u8, 105u8, 115u8, 32u8, 66u8, 108u8, 111u8, 99u8, 107u8];
    proof {
        assert(v@ =~= genesis_payload_seq());
    }
    v
}

/// The models of a sequence of blocks.
pub open spec fn models_of(s: Seq<Block>) -> Seq<BlockModel> {
    s.map_values(|b: Block| b@)
}

/// The blocks `ch` are exactly what the store `c` yields when links are
/// followed from the cursor `from` until the cursor `to` is reached:
/// each one sits in `c` under its own hash, which is the previous
/// cursor, and hands the walk its predecessor hash.
pub open spec fn is_chain_seg(
    c: Map<Seq<u8>, Seq<u8>>,
    from: Seq<u8>,
    ch: Seq<BlockModel>,
    to: Seq<u8>,
) -> bool
    decreases ch.len(),
{
    if ch.len() == 0 {
        to == from
    } else {
        &&& from != zero_hash_seq()
        &&& c.contains_key(from)
        &&& wf_block(ch[0])
        &&& c[from] == encode_spec(ch[0])
        &&& ch[0].hash == from
        &&& is_chain_seg(c, ch[0].prev_block_hash, ch.skip(1), to)
    }
}

/// The whole chain hanging from `tip` in the store `c`: the block at
/// the tip, then its predecessors, down to the block whose predecessor
/// is the zero sentinel — the genesis block, which is included.
pub open spec fn is_chain(c: Map<Seq<u8>, Seq<u8>>, tip: Seq<u8>, ch: Seq<BlockModel>) -> bool {
    is_chain_seg(c, tip, ch, zero_hash_seq())
}

/// A walked segment grows by one block read at its cursor.
proof fn lemma_chain_seg_extend(
    c: Map<Seq<u8>, Seq<u8>>,
    from: Seq<u8>,
    pre: Seq<BlockModel>,
    cur: Seq<u8>,
    b: BlockModel,
)
    requires
        is_chain_seg(c, from, pre, cur),
        cur != zero_hash_seq(),
        c.contains_key(cur),
        wf_block(b),
        c[cur] == encode_spec(b),
        b.hash == cur,
    ensures
        is_chain_seg(c, from, pre.push(b), b.prev_block_hash),
    decreases pre.len(),
{
    if pre.len() == 0 {
        assert(pre.push(b)[0] == b);
        assert(pre.push(b).skip(1) =~= Seq::<BlockModel>::empty());
        assert(is_chain_seg(c, b.prev_block_hash, pre.push(b).skip(1), b.prev_block_hash));
    } else {
        lemma_chain_seg_extend(c, pre[0].prev_block_hash, pre.skip(1), cur, b);
        assert(pre.push(b).skip(1) =~= pre.skip(1).push(b));
        assert(pre.push(b)[0] == pre[0]);
        assert(is_chain_seg(c, pre.push(b)[0].prev_block_hash, pre.push(b).skip(1), b.prev_block_hash));
    }
}

/// Following the same links can only find one chain: a walked prefix is
/// how every full chain starts, and the rest of the chain hangs from
/// the walk's cursor.
proof fn lemma_chain_decompose(
    c: Map<Seq<u8>, Seq<u8>>,
    from: Seq<u8>,
    pre: Seq<BlockModel>,
    cur: Seq<u8>,
    ch: Seq<BlockModel>,
)
    requires
        is_chain_seg(c, from, pre, cur),
        is_chain(c, from, ch),
    ensures
        ch.len() >= pre.len(),
        is_chain(c, cur, ch.skip(pre.len() as int)),
    decreases pre.len(),
{
    if pre.len() == 0 {
        assert(ch.skip(0) =~= ch);
    } else {
        assert(ch.len() > 0) by {
            if ch.len() == 0 {
                assert(from == zero_hash_seq());
            }
        }
        lemma_encode_injective(pre[0], ch[0]);
        lemma_chain_decompose(c, pre[0].prev_block_hash, pre.skip(1), cur, ch.skip(1));
        assert(ch.skip(1).skip(pre.len() - 1) =~= ch.skip(pre.len() as int));
    }
}

/// A store yields at most one chain from a given tip.
pub proof fn lemma_chain_unique(
    c: Map<Seq<u8>, Seq<u8>>,
    tip: Seq<u8>,
    ch1: Seq<BlockModel>,
    ch2: Seq<BlockModel>,
)
    requires
        is_chain(c, tip, ch1),
        is_chain(c, tip, ch2),
    ensures
        ch1 == ch2,
    decreases ch1.len(),
{
    if ch1.len() == 0 {
        assert(tip == zero_hash_seq());
        assert(ch2.len() == 0);
        assert(ch1 =~= ch2);
    } else {
        assert(ch2.len() > 0) by {
            if ch2.len() == 0 {
                assert(tip == zero_hash_seq());
            }
        }
        lemma_encode_injective(ch1[0], ch2[0]);
        lemma_chain_unique(c, ch1[0].prev_block_hash, ch1.skip(1), ch2.skip(1));
        assert(forall|i: int| 1 <= i < ch1.len() ==> ch1[i] == ch1.skip(1)[i - 1]);
        assert(forall|i: int| 1 <= i < ch2.len() ==> ch2[i] == ch2.skip(1)[i - 1]);
        assert(ch1 =~= ch2);
    }
}

/// A non-empty chain always ends in the genesis block: the last block's
/// predecessor hash is the zero sentinel.
pub proof fn lemma_chain_last_is_genesis(c: Map<Seq<u8>, Seq<u8>>, tip: Seq<u8>, ch: Seq<BlockModel>)
    requires
        is_chain(c, tip, ch),
        ch.len() > 0,
    ensures
        ch[ch.len() - 1].prev_block_hash == zero_hash_seq(),
    decreases ch.len(),
{
    if ch.len() == 1 {
        assert(is_chain_seg(c, ch[0].prev_block_hash, ch.skip(1), zero_hash_seq()));
    } else {
        lemma_chain_last_is_genesis(c, ch[0].prev_block_hash, ch.skip(1));
        assert(ch.skip(1)[ch.len() - 2] == ch[ch.len() - 1]);
    }
}

/// In a chain, every block is keyed by its own hash and linked to the
/// next one: its predecessor hash is the following block's hash.
pub proof fn lemma_chain_links(c: Map<Seq<u8>, Seq<u8>>, tip: Seq<u8>, ch: Seq<BlockModel>)
    requires
        is_chain(c, tip, ch),
    ensures
        ch.len() > 0 ==> ch[0].hash == tip,
        forall|i: int|
            0 <= i < ch.len() - 1 ==> ch[i].prev_block_hash == ch[i + 1].hash,
        forall|i: int| 0 <= i < ch.len() ==> wf_block(ch[i]) && c.contains_key(ch[i].hash)
            && c[ch[i].hash] == encode_spec(ch[i]),
    decreases ch.len(),
{
    if ch.len() > 0 {
        lemma_chain_links(c, ch[0].prev_block_hash, ch.skip(1));
        assert forall|i: int| 0 <= i < ch.len() - 1 implies ch[i].prev_block_hash == ch[i
            + 1].hash by {
            assert(ch.skip(1)[i] == ch[i + 1]);
            if i > 0 {
                assert(ch.skip(1)[i - 1] == ch[i]);
            }
        }
        assert forall|i: int|
            0 <= i < ch.len() implies wf_block(ch[i]) && c.contains_key(ch[i].hash) && c[ch[i].hash]
            == encode_spec(ch[i]) by {
            if i > 0 {
                assert(ch.skip(1)[i - 1] == ch[i]);
            }
        }
    }
}

/// Adding an entry the walk never looks at leaves a chain segment as it
/// was: either the key is absent from the store, or it has not the
/// width of a hash.
proof fn lemma_chain_seg_preserved(
    c: Map<Seq<u8>, Seq<u8>>,
    from: Seq<u8>,
    ch: Seq<BlockModel>,
    to: Seq<u8>,
    key: Seq<u8>,
    val: Seq<u8>,
)
    requires
        is_chain_seg(c, from, ch, to),
        key.len() != 32 || !c.contains_key(key),
    ensures
        is_chain_seg(c.insert(key, val), from, ch, to),
    decreases ch.len(),
{
    if ch.len() > 0 {
        assert(from.len() == 32);
        assert(from != key);
        lemma_chain_seg_preserved(c, ch[0].prev_block_hash, ch.skip(1), to, key, val);
    }
}

/// The growth law: appending a freshly mined block — linked to the old
/// tip, keyed by a hash not yet in the store and not the zero sentinel —
/// extends the chain by exactly that block, under the new tip.
pub proof fn lemma_chain_extend(
    c: Map<Seq<u8>, Seq<u8>>,
    tip: Seq<u8>,
    ch: Seq<BlockModel>,
    b: BlockModel,
)
    requires
        is_chain(c, tip, ch),
        wf_block(b),
        b.prev_block_hash == tip,
        b.hash != zero_hash_seq(),
        !c.contains_key(b.hash),
    ensures
        is_chain(
            c.insert(b.hash, encode_spec(b)).insert(tip_key_seq(), b.hash),
            b.hash,
            seq![b] + ch,
        ),
        (seq![b] + ch).len() == ch.len() + 1,
{
    let c1 = c.insert(b.hash, encode_spec(b));
    let c2 = c1.insert(tip_key_seq(), b.hash);
    lemma_chain_seg_preserved(c, tip, ch, zero_hash_seq(), b.hash, encode_spec(b));
    lemma_chain_seg_preserved(c1, tip, ch, zero_hash_seq(), tip_key_seq(), b.hash);
    assert(c2.contains_key(b.hash) && c2[b.hash] == encode_spec(b));
    assert((seq![b] + ch)[0] == b);
    assert((seq![b] + ch).skip(1) =~= ch);
}

/// The store contents after the blocks `bs` are appended in turn, the
/// last element of `bs` first: each one is persisted under its own hash
/// and the tip record moved to it, exactly as one append leaves the
/// store.
pub open spec fn after_appends(c: Map<Seq<u8>, Seq<u8>>, bs: Seq<BlockModel>) -> Map<
    Seq<u8>,
    Seq<u8>,
>
    decreases bs.len(),
{
    if bs.len() == 0 {
        c
    } else {
        after_appends(c, bs.skip(1)).insert(bs[0].hash, encode_spec(bs[0])).insert(
            tip_key_seq(),
            bs[0].hash,
        )
    }
}

/// The tip after those appends: the newest block's hash, or the old tip
/// when nothing was appended.
pub open spec fn tip_after(tip0: Seq<u8>, bs: Seq<BlockModel>) -> Seq<u8> {
    if bs.len() == 0 {
        tip0
    } else {
        bs[0].hash
    }
}

/// A key absent from the store, different from every appended hash and
/// from the tip key, is still absent after the appends.
proof fn lemma_after_appends_fresh(c: Map<Seq<u8>, Seq<u8>>, bs: Seq<BlockModel>, k: Seq<u8>)
    requires
        !c.contains_key(k),
        forall|i: int| 0 <= i < bs.len() ==> bs[i].hash != k,
        k != tip_key_seq(),
    ensures
        !after_appends(c, bs).contains_key(k),
    decreases bs.len(),
{
    if bs.len() > 0 {
        assert(forall|i: int| 0 <= i < bs.skip(1).len() ==> bs.skip(1)[i] == bs[i + 1]);
        lemma_after_appends_fresh(c, bs.skip(1), k);
    }
}

/// The append-count law: appending N blocks to a store holding a chain
/// of length L — each linked to the tip before it — leaves a chain of
/// exactly N + L blocks, the appended ones first in reverse append
/// order. `bs` lists the appended blocks newest first. The freshness
/// conditions exclude the inputs on which the law cannot hold: a digest
/// that collides with a stored key or another appended block, or the
/// all-zero digest, would break the walk, and no contract over an
/// uninterpreted digest can rule them out.
pub proof fn lemma_appends_build_chain(
    c0: Map<Seq<u8>, Seq<u8>>,
    tip0: Seq<u8>,
    ch0: Seq<BlockModel>,
    bs: Seq<BlockModel>,
)
    requires
        is_chain(c0, tip0, ch0),
        forall|i: int| 0 <= i < bs.len() ==> wf_block(#[trigger] bs[i]),
        forall|i: int|
            0 <= i < bs.len() ==> (#[trigger] bs[i]).prev_block_hash == (if i == bs.len() - 1 {
                tip0
            } else {
                bs[i + 1].hash
            }),
        forall|i: int| 0 <= i < bs.len() ==> (#[trigger] bs[i]).hash != zero_hash_seq(),
        forall|i: int| 0 <= i < bs.len() ==> !c0.contains_key((#[trigger] bs[i]).hash),
        forall|i: int, j: int| 0 <= i < j < bs.len() ==> bs[i].hash != bs[j].hash,
    ensures
        is_chain(after_appends(c0, bs), tip_after(tip0, bs), bs + ch0),
        (bs + ch0).len() == bs.len() + ch0.len(),
    decreases bs.len(),
{
    if bs.len() == 0 {
        assert(bs + ch0 =~= ch0);
    } else {
        let rest = bs.skip(1);
        assert(forall|i: int| 0 <= i < rest.len() ==> rest[i] == bs[i + 1]);
        lemma_appends_build_chain(c0, tip0, ch0, rest);
        let c1 = after_appends(c0, rest);
        assert(bs[0].hash.len() == 32 && tip_key_seq().len() == 1);
        lemma_after_appends_fresh(c0, rest, bs[0].hash);
        assert(bs[0].prev_block_hash == tip_after(tip0, rest));
        lemma_chain_extend(c1, tip_after(tip0, rest), rest + ch0, bs[0]);
        assert(seq![bs[0]] + (rest + ch0) =~= bs + ch0);
    }
}

/// The persistent ledger: a key-value store holding every block under
/// its hash, a tip pointer, and the difficulty every appended block is
/// mined at.
pub struct Blockchain {
    store: KvStore,
    tip: Vec<u8>,
    difficulty: u64,
}

/// Walks the chain backward, from the tip toward the genesis block,
/// one block per step.
pub struct BlockchainIterator {
    pub current_hash: Vec<u8>,
}

impl Blockchain {
    /// The stored entries, as the trusted store model shows them.
    pub closed spec fn contents(&self) -> Map<Seq<u8>, Seq<u8>> {
        kv_contents(self.store)
    }

    /// The recorded tip hash.
    pub closed spec fn tip_spec(&self) -> Seq<u8> {
        self.tip@
    }

    /// The difficulty blocks are mined at.
    pub closed spec fn difficulty_spec(&self) -> u64 {
        self.difficulty
    }

    /// The handle is well formed: the tip has the width of a hash and
    /// the difficulty is a sensible number of hexadecimal digits.
    pub open spec fn wf(&self) -> bool {
        &&& self.tip_spec().len() == 32
        &&& 1 <= self.difficulty_spec() <= 64
    }

    /// The recorded tip hash.
    pub fn tip(&self) -> (r: &Vec<u8>)
        ensures
            r@ == self.tip_spec(),
    {
        &self.tip
    }

    /// The difficulty blocks are mined at.
    pub fn difficulty(&self) -> (r: u64)
        ensures
            r == self.difficulty_spec(),
    {
        self.difficulty
    }

    /// Opens a ledger over an already opened store. If no tip is
    /// recorded, a genesis block is mined and persisted and the tip set
    /// to its hash; a recorded tip is trusted as it is, but one of the
    /// wrong width is the corruption error. A failed tip read is
    /// surfaced and no genesis block is created for it.
    pub fn from_store(store: KvStore, difficulty: u64) -> (r: Result<Blockchain, ChainError>)
        requires
            1 <= difficulty <= 64,
        ensures
            r matches Ok(bc) ==> {
                &&& bc.wf()
                &&& bc.difficulty_spec() == difficulty
                &&& bc.contents().contains_key(tip_key_seq())
                &&& bc.contents()[tip_key_seq()] == bc.tip_spec()
                &&& (kv_contents(store).contains_key(tip_key_seq())
                    && kv_contents(store)[tip_key_seq()].len() == 32 ==> {
                    &&& bc.contents() == kv_contents(store)
                    &&& bc.tip_spec() == kv_contents(store)[tip_key_seq()]
                })
                &&& (!kv_contents(store).contains_key(tip_key_seq()) ==> exists|g: BlockModel| {
                    &&& wf_block(g)
                    &&& pow_valid(g, difficulty as nat)
                    &&& g.data == genesis_payload_seq()
                    &&& g.prev_block_hash == zero_hash_seq()
                    &&& bc.tip_spec() == g.hash
                    &&& bc.contents() == kv_contents(store).insert(g.hash, encode_spec(g)).insert(
                        tip_key_seq(),
                        g.hash,
                    )
                    &&& (g.hash != zero_hash_seq() && !kv_contents(store).contains_key(g.hash)
                        ==> is_chain(bc.contents(), bc.tip_spec(), seq![g]))
                })
            },
            kv_contents(store).contains_key(tip_key_seq()) && kv_contents(store)[tip_key_seq()].len()
                != 32 ==> r is Err && (r->Err_0 == ChainError::CorruptChain || r->Err_0
                == ChainError::StorageOpFailed),
            r is Err ==> r->Err_0 != ChainError::StorageUnavailable,
            r is Err && !kv_contents(store).contains_key(tip_key_seq()) ==> r->Err_0
                != ChainError::CorruptChain,
            kv_contents(store).contains_key(tip_key_seq()) && kv_contents(store)[tip_key_seq()].len()
                == 32 ==> r is Ok || r->Err_0 == ChainError::StorageOpFailed,
    {
        let ghost c0 = kv_contents(store);
        let key = tip_key();
        match kv_get(&store, key.as_slice()) {
            Ok(Some(t)) => {
                if t.len() == 32 {
                    Ok(Blockchain { store, tip: t, difficulty })
                } else {
                    Err(ChainError::CorruptChain)
                }
            },
            Ok(None) => {
                let zero = zero_hash();
                let payload = genesis_payload();
                let now = Block::now_unix_seconds();
                match Block::with_timestamp(payload.as_slice(), zero.as_slice(), now, difficulty) {
                    Ok(g) => {
                        let mut store = store;
                        let enc = g.serialize();
                        match kv_insert(&mut store, g.hash(), enc.as_slice()) {
                            Ok(()) => {},
                            Err(e) => {
                                return Err(e);
                            },
                        }
                        match kv_insert(&mut store, key.as_slice(), g.hash()) {
                            Ok(()) => {},
                            Err(e) => {
                                return Err(e);
                            },
                        }
                        let tip = vstd::slice::slice_to_vec(g.hash());
                        let bc = Blockchain { store, tip, difficulty };
                        proof {
                            if g@.hash != zero_hash_seq() && !c0.contains_key(g@.hash) {
                                lemma_chain_extend(
                                    c0,
                                    zero_hash_seq(),
                                    Seq::<BlockModel>::empty(),
                                    g@,
                                );
                                assert(seq![g@] + Seq::<BlockModel>::empty() =~= seq![g@]);
                            }
                            assert({
                                &&& wf_block(g@)
                                &&& pow_valid(g@, difficulty as nat)
                                &&& g@.data == genesis_payload_seq()
                                &&& g@.prev_block_hash == zero_hash_seq()
                                &&& bc.tip_spec() == g@.hash
                                &&& bc.contents() == c0.insert(g@.hash, encode_spec(g@)).insert(
                                    tip_key_seq(),
                                    g@.hash,
                                )
                                &&& (g@.hash != zero_hash_seq() && !c0.contains_key(g@.hash)
                                    ==> is_chain(bc.contents(), bc.tip_spec(), seq![g@]))
                            });
                        }
                        Ok(bc)
                    },
                    Err(e) => Err(e),
                }
            },
            Err(e) => Err(e),
        }
    }

    /// Opens or creates the ledger persisted at `path`, mining blocks at
    /// the given difficulty, creating the genesis block if none exists.
    /// A failure to open or read is surfaced, never papered over with a
    /// fresh genesis block.
    pub fn open(path: &str, difficulty: u64) -> (r: Result<Blockchain, ChainError>)
        requires
            1 <= difficulty <= 64,
        ensures
            r matches Ok(bc) ==> {
                &&& bc.wf()
                &&& bc.difficulty_spec() == difficulty
                &&& bc.contents().contains_key(tip_key_seq())
                &&& bc.contents()[tip_key_seq()] == bc.tip_spec()
            },
    {
        match kv_open(path) {
            Ok(store) => Self::from_store(store, difficulty),
            Err(e) => Err(e),
        }
    }

    /// Opens or creates the ledger at its fixed location on disk, at the
    /// configured difficulty, creating the genesis block if none exists.
    pub fn new() -> (r: Result<Blockchain, ChainError>)
        ensures
            r matches Ok(bc) ==> {
                &&& bc.wf()
                &&& bc.difficulty_spec() == DIFFICULTY
                &&& bc.contents().contains_key(tip_key_seq())
                &&& bc.contents()[tip_key_seq()] == bc.tip_spec()
            },
    {
        Self::open("db", DIFFICULTY)
    }

    /// Opens a ledger over a fresh scratch store, which starts empty, so
    /// success always yields the one-block genesis chain.
    pub fn new_temporary(difficulty: u64) -> (r: Result<Blockchain, ChainError>)
        requires
            1 <= difficulty <= 64,
        ensures
            r matches Ok(bc) ==> {
                &&& bc.wf()
                &&& bc.difficulty_spec() == difficulty
                &&& exists|g: BlockModel| {
                    &&& wf_block(g)
                    &&& pow_valid(g, difficulty as nat)
                    &&& g.data == genesis_payload_seq()
                    &&& g.prev_block_hash == zero_hash_seq()
                    &&& bc.tip_spec() == g.hash
                    &&& bc.contents() == kv_empty().insert(g.hash, encode_spec(g)).insert(
                        tip_key_seq(),
                        g.hash,
                    )
                    &&& (g.hash != zero_hash_seq() ==> is_chain(bc.contents(), bc.tip_spec(), seq![g]))
                }
            },
            r is Err ==> r->Err_0 != ChainError::CorruptChain,
    {
        match kv_open_temporary() {
            Ok(store) => {
                let ghost c0 = kv_contents(store);
                let r = Self::from_store(store, difficulty);
                proof {
                    assert(c0 == kv_empty());
                    assert(!c0.contains_key(tip_key_seq()));
                    if r is Ok {
                        let bc = r->Ok_0;
                        let g = choose|g: BlockModel| {
                            &&& wf_block(g)
                            &&& pow_valid(g, difficulty as nat)
                            &&& g.data == genesis_payload_seq()
                            &&& g.prev_block_hash == zero_hash_seq()
                            &&& bc.tip_spec() == g.hash
                            &&& bc.contents() == c0.insert(g.hash, encode_spec(g)).insert(
                                tip_key_seq(),
                                g.hash,
                            )
                            &&& (g.hash != zero_hash_seq() && !c0.contains_key(g.hash) ==> is_chain(
                                bc.contents(),
                                bc.tip_spec(),
                                seq![g],
                            ))
                        };
                        assert(!c0.contains_key(g.hash));
                        assert({
                            &&& wf_block(g)
                            &&& pow_valid(g, difficulty as nat)
                            &&& g.data == genesis_payload_seq()
                            &&& g.prev_block_hash == zero_hash_seq()
                            &&& bc.tip_spec() == g.hash
                            &&& bc.contents() == kv_empty().insert(g.hash, encode_spec(g)).insert(
                                tip_key_seq(),
                                g.hash,
                            )
                            &&& (g.hash != zero_hash_seq() ==> is_chain(
                                bc.contents(),
                                bc.tip_spec(),
                                seq![g],
                            ))
                        });
                    }
                }
                r
            },
            Err(e) => Err(e),
        }
    }

    /// Mines a block holding `data` on top of the current tip, persists
    /// it under its hash, and advances the tip to it, returning the new
    /// hash. On success the store holds exactly the old entries plus the
    /// new block and the moved tip entry. On failure the tip is not
    /// advanced and no partial state is committed beyond, at most, the
    /// mined block's own entry and the tip record for it: a failed
    /// mining attempt never reaches persistence at all.
    pub fn add_block(&mut self, data: &[u8]) -> (r: Result<Vec<u8>, ChainError>)
        requires
            old(self).wf(),
        ensures
            final(self).wf(),
            final(self).difficulty_spec() == old(self).difficulty_spec(),
            r matches Ok(h) ==> exists|b: BlockModel| {
                &&& wf_block(b)
                &&& pow_valid(b, old(self).difficulty_spec() as nat)
                &&& b.data == data@
                &&& b.prev_block_hash == old(self).tip_spec()
                &&& h@ == b.hash
                &&& final(self).tip_spec() == b.hash
                &&& final(self).contents() == old(self).contents().insert(
                    b.hash,
                    encode_spec(b),
                ).insert(tip_key_seq(), b.hash)
            },
            r is Err ==> final(self).tip_spec() == old(self).tip_spec() && (r == Err::<
                Vec<u8>,
                ChainError,
            >(ChainError::StorageOpFailed) || r == Err::<Vec<u8>, ChainError>(
                ChainError::MiningExhausted,
            )),
            r == Err::<Vec<u8>, ChainError>(ChainError::MiningExhausted) ==> final(self).contents()
                == old(self).contents(),
            r is Err ==> final(self).contents() == old(self).contents() || exists|b: BlockModel| {
                &&& wf_block(b)
                &&& pow_valid(b, old(self).difficulty_spec() as nat)
                &&& b.data == data@
                &&& b.prev_block_hash == old(self).tip_spec()
                &&& (final(self).contents() == old(self).contents().insert(b.hash, encode_spec(b))
                    || final(self).contents() == old(self).contents().insert(
                    b.hash,
                    encode_spec(b),
                ).insert(tip_key_seq(), b.hash))
            },
    {
        let now = Block::now_unix_seconds();
        let b = match Block::with_timestamp(data, self.tip.as_slice(), now, self.difficulty) {
            Ok(b) => b,
            Err(e) => {
                return Err(e);
            },
        };
        let enc = b.serialize();
        match kv_insert(&mut self.store, b.hash(), enc.as_slice()) {
            Ok(()) => {},
            Err(e) => {
                proof {
                    if self.contents() != old(self).contents() {
                        assert({
                            &&& wf_block(b@)
                            &&& pow_valid(b@, old(self).difficulty_spec() as nat)
                            &&& b@.data == data@
                            &&& b@.prev_block_hash == old(self).tip_spec()
                            &&& self.contents() == old(self).contents().insert(
                                b@.hash,
                                encode_spec(b@),
                            )
                        });
                    }
                }
                return Err(e);
            },
        }
        let key = tip_key();
        match kv_insert(&mut self.store, key.as_slice(), b.hash()) {
            Ok(()) => {},
            Err(e) => {
                proof {
                    assert({
                        &&& wf_block(b@)
                        &&& pow_valid(b@, old(self).difficulty_spec() as nat)
                        &&& b@.data == data@
                        &&& b@.prev_block_hash == old(self).tip_spec()
                        &&& (self.contents() == old(self).contents().insert(b@.hash, encode_spec(b@))
                            || self.contents() == old(self).contents().insert(
                            b@.hash,
                            encode_spec(b@),
                        ).insert(tip_key_seq(), b@.hash))
                    });
                }
                return Err(e);
            },
        }
        self.tip = vstd::slice::slice_to_vec(b.hash());
        proof {
            assert({
                &&& wf_block(b@)
                &&& pow_valid(b@, old(self).difficulty_spec() as nat)
                &&& b@.data == data@
                &&& b@.prev_block_hash == old(self).tip_spec()
                &&& self.tip_spec() == b@.hash
                &&& self.contents() == old(self).contents().insert(b@.hash, encode_spec(b@)).insert(
                    tip_key_seq(),
                    b@.hash,
                )
            });
        }
        Ok(vstd::slice::slice_to_vec(b.hash()))
    }

    /// Looks a block up by its hash. Absence is answered with no block,
    /// and is distinct from corruption: the corruption error comes
    /// exactly when an entry is present but no well-formed block
    /// serializes to it.
    pub fn read_block(&self, hash: &[u8]) -> (r: Result<Option<Block>, ChainError>)
        ensures
            r matches Ok(Some(b)) ==> {
                &&& self.contents().contains_key(hash@)
                &&& wf_block(b@)
                &&& encode_spec(b@) == self.contents()[hash@]
            },
            r matches Ok(None) ==> !self.contents().contains_key(hash@),
            r == Err::<Option<Block>, ChainError>(ChainError::CorruptChain) ==> {
                &&& self.contents().contains_key(hash@)
                &&& !(exists|m: BlockModel| wf_block(m) && encode_spec(m) == self.contents()[hash@])
            },
            r is Err ==> r->Err_0 == ChainError::CorruptChain || r->Err_0
                == ChainError::StorageOpFailed,
    {
        match kv_get(&self.store, hash) {
            Ok(Some(bytes)) => match Block::deserialize(bytes.as_slice()) {
                Ok(b) => Ok(Some(b)),
                Err(e) => Err(e),
            },
            Ok(None) => Ok(None),
            Err(e) => Err(e),
        }
    }

    /// Starts a backward walk at the current tip.
    pub fn iter(&self) -> (r: BlockchainIterator)
        ensures
            r.current_hash@ == self.tip_spec(),
    {
        BlockchainIterator { current_hash: self.tip.clone() }
    }

    /// Collects the whole chain, tip first, down to and including the
    /// genesis block. Success yields exactly the chain the store holds;
    /// the corruption error comes exactly when the store holds no chain
    /// from the tip short enough to count.
    pub fn blocks(&self) -> (r: Result<Vec<Block>, ChainError>)
        requires
            self.wf(),
        ensures
            r matches Ok(v) ==> is_chain(self.contents(), self.tip_spec(), models_of(v@)),
            r == Err::<Vec<Block>, ChainError>(ChainError::CorruptChain) ==> forall|
                ch: Seq<BlockModel>,
            | !(is_chain(self.contents(), self.tip_spec(), ch) && ch.len() <= u64::MAX),
            r is Err ==> r->Err_0 == ChainError::CorruptChain || r->Err_0
                == ChainError::StorageOpFailed,
            self.tip_spec() == zero_hash_seq() ==> r is Ok && r->Ok_0@.len() == 0,
    {
        let zero = zero_hash();
        let mut cursor: Vec<u8> = self.tip.clone();
        let mut out: Vec<Block> = Vec::new();
        let mut steps: u64 = 0;
        while steps < u64::MAX
            invariant
                self.wf(),
                zero@ == zero_hash_seq(),
                steps == out@.len(),
                is_chain_seg(self.contents(), self.tip_spec(), models_of(out@), cursor@),
            decreases u64::MAX - steps,
        {
            if bytes_eq(cursor.as_slice(), zero.as_slice()) {
                return Ok(out);
            }
            let got = match kv_get(&self.store, cursor.as_slice()) {
                Ok(g) => g,
                Err(e) => {
                    return Err(e);
                },
            };
            let bytes = match got {
                Some(bytes) => bytes,
                None => {
                    proof {
                        assert forall|ch: Seq<BlockModel>|
                            !(is_chain(self.contents(), self.tip_spec(), ch) && ch.len()
                                <= u64::MAX) by {
                            if is_chain(self.contents(), self.tip_spec(), ch) {
                                lemma_chain_decompose(
                                    self.contents(),
                                    self.tip_spec(),
                                    models_of(out@),
                                    cursor@,
                                    ch,
                                );
                            }
                        }
                    }
                    return Err(ChainError::CorruptChain);
                },
            };
            let b = match Block::deserialize(bytes.as_slice()) {
                Ok(b) => b,
                Err(_) => {
                    proof {
                        assert forall|ch: Seq<BlockModel>|
                            !(is_chain(self.contents(), self.tip_spec(), ch) && ch.len()
                                <= u64::MAX) by {
                            if is_chain(self.contents(), self.tip_spec(), ch) {
                                lemma_chain_decompose(
                                    self.contents(),
                                    self.tip_spec(),
                                    models_of(out@),
                                    cursor@,
                                    ch,
                                );
                                let suffix = ch.skip(out@.len() as int);
                                assert(encode_spec(suffix[0]) == bytes@);
                            }
                        }
                    }
                    return Err(ChainError::CorruptChain);
                },
            };
            if !bytes_eq(b.hash(), cursor.as_slice()) {
                proof {
                    assert forall|ch: Seq<BlockModel>|
                        !(is_chain(self.contents(), self.tip_spec(), ch) && ch.len() <= u64::MAX) by {
                        if is_chain(self.contents(), self.tip_spec(), ch) {
                            lemma_chain_decompose(
                                self.contents(),
                                self.tip_spec(),
                                models_of(out@),
                                cursor@,
                                ch,
                            );
                            let suffix = ch.skip(out@.len() as int);
                            lemma_encode_injective(suffix[0], b@);
                        }
                    }
                }
                return Err(ChainError::CorruptChain);
            }
            let prev = vstd::slice::slice_to_vec(b.prev_block_hash());
            proof {
                lemma_chain_seg_extend(
                    self.contents(),
                    self.tip_spec(),
                    models_of(out@),
                    cursor@,
                    b@,
                );
                assert(models_of(out@.push(b)) =~= models_of(out@).push(b@));
            }
            out.push(b);
            cursor = prev;
            steps = steps + 1;
        }
        if bytes_eq(cursor.as_slice(), zero.as_slice()) {
            return Ok(out);
        }
        proof {
            assert forall|ch: Seq<BlockModel>|
                !(is_chain(self.contents(), self.tip_spec(), ch) && ch.len() <= u64::MAX) by {
                if is_chain(self.contents(), self.tip_spec(), ch) {
                    lemma_chain_decompose(
                        self.contents(),
                        self.tip_spec(),
                        models_of(out@),
                        cursor@,
                        ch,
                    );
                    let suffix = ch.skip(out@.len() as int);
                    assert(suffix.len() >= 1);
                    assert(ch.len() >= out@.len() + 1);
                }
            }
        }
        Err(ChainError::CorruptChain)
    }
}

impl BlockchainIterator {
    /// Yields the block at the cursor and moves the cursor one step
    /// back along the chain; yields nothing exactly when the cursor has
    /// reached the zero sentinel, where no lookup is attempted and no
    /// error can arise. The corruption error comes exactly when the
    /// cursor names no decodable block keyed by it; an error never
    /// moves the cursor.
    pub fn next(&mut self, chain: &Blockchain) -> (r: Result<Option<Block>, ChainError>)
        ensures
            old(self).current_hash@ == zero_hash_seq() ==> r matches Ok(None),
            r is Err ==> final(self).current_hash@ == old(self).current_hash@,
            r is Err ==> r->Err_0 == ChainError::CorruptChain || r->Err_0
                == ChainError::StorageOpFailed,
            r matches Ok(Some(b)) ==> {
                &&& old(self).current_hash@ != zero_hash_seq()
                &&& wf_block(b@)
                &&& chain.contents().contains_key(old(self).current_hash@)
                &&& chain.contents()[old(self).current_hash@] == encode_spec(b@)
                &&& b@.hash == old(self).current_hash@
                &&& final(self).current_hash@ == b@.prev_block_hash
            },
            r matches Ok(None) ==> old(self).current_hash@ == zero_hash_seq() && final(self).current_hash@ == old(self).current_hash@,
            r == Err::<Option<Block>, ChainError>(ChainError::CorruptChain) ==> old(self).current_hash@ != zero_hash_seq() && !(exists|b: BlockModel| {
                &&& wf_block(b)
                &&& chain.contents().contains_key(old(self).current_hash@)
                &&& chain.contents()[old(self).current_hash@] == encode_spec(b)
                &&& b.hash == old(self).current_hash@
            }),
    {
        let zero = zero_hash();
        if bytes_eq(self.current_hash.as_slice(), zero.as_slice()) {
            return Ok(None);
        }
        let bytes = match kv_get(&chain.store, self.current_hash.as_slice()) {
            Ok(Some(bytes)) => bytes,
            Ok(None) => {
                return Err(ChainError::CorruptChain);
            },
            Err(e) => {
                return Err(e);
            },
        };
        match Block::deserialize(bytes.as_slice()) {
            Ok(b) => {
                if !bytes_eq(b.hash(), self.current_hash.as_slice()) {
                    proof {
                        assert forall|m: BlockModel|
                            !({
                                &&& wf_block(m)
                                &&& chain.contents().contains_key(old(self).current_hash@)
                                &&& chain.contents()[old(self).current_hash@] == encode_spec(m)
                                &&& m.hash == old(self).current_hash@
                            }) by {
                            if wf_block(m) && chain.contents().contains_key(
                                old(self).current_hash@,
                            ) && chain.contents()[old(self).current_hash@] == encode_spec(m) {
                                lemma_encode_injective(m, b@);
                            }
                        }
                    }
                    return Err(ChainError::CorruptChain);
                }
                self.current_hash = vstd::slice::slice_to_vec(b.prev_block_hash());
                Ok(Some(b))
            },
            Err(_) => {
                return Err(ChainError::CorruptChain);
            },
        }
    }
}

} // verus!
