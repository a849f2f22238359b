use rustchain::blockchain::Blockchain;
use rustchain::proofofwork::ProofOfWork;
use rustchain::ChainError;

#[test]
fn fresh_store_holds_only_genesis() {
    let bc = Blockchain::new_temporary(2).unwrap();
    let chain = bc.blocks().unwrap();
    assert_eq!(chain.len(), 1);
    let genesis = &chain[0];
    assert_eq!(genesis.data(), &b"Genesis Block".to_vec());
    assert_eq!(genesis.prev_block_hash(), &[0u8; 32]);
    assert_eq!(genesis.hash(), bc.tip().as_slice());
    let pow = ProofOfWork::with_difficulty(genesis, 2);
    assert!(pow.validate());
}

#[test]
fn two_appends_yield_three_linked_blocks() {
    let mut bc = Blockchain::new_temporary(2).unwrap();
    let h1 = bc.add_block(b"Send 1 BTC to Ivan").unwrap();
    let h2 = bc.add_block(b"Send 2 more BTC to Ivan").unwrap();
    assert_eq!(bc.tip(), &h2);

    let chain = bc.blocks().unwrap();
    assert_eq!(chain.len(), 3);
    // Tip first: block2, block1, genesis.
    assert_eq!(chain[0].data(), &b"Send 2 more BTC to Ivan".to_vec());
    assert_eq!(chain[1].data(), &b"Send 1 BTC to Ivan".to_vec());
    assert_eq!(chain[2].data(), &b"Genesis Block".to_vec());
    assert_eq!(chain[0].hash(), h2.as_slice());
    assert_eq!(chain[1].hash(), h1.as_slice());
    // Each block links to the next one's hash; genesis to the sentinel.
    assert_eq!(chain[0].prev_block_hash(), chain[1].hash());
    assert_eq!(chain[1].prev_block_hash(), chain[2].hash());
    assert_eq!(chain[2].prev_block_hash(), &[0u8; 32]);
    // Every yielded block validates.
    for b in &chain {
        let pow = ProofOfWork::with_difficulty(b, 2);
        assert!(pow.validate());
    }
}

#[test]
fn appending_n_payloads_gives_n_plus_one_blocks() {
    let mut bc = Blockchain::new_temporary(1).unwrap();
    let n: u8 = 5;
    for i in 0..n {
        let payload = vec![b'p', b'0' + i];
        bc.add_block(payload.as_slice()).unwrap();
    }
    let chain = bc.blocks().unwrap();
    assert_eq!(chain.len(), (n as usize) + 1);
    assert_eq!(chain.last().unwrap().prev_block_hash(), &[0u8; 32]);
}

#[test]
fn iterator_walks_tip_to_genesis() {
    let mut bc = Blockchain::new_temporary(2).unwrap();
    bc.add_block(b"first").unwrap();
    bc.add_block(b"second").unwrap();
    let expected = bc.blocks().unwrap();

    let mut it = bc.iter();
    let mut walked = Vec::new();
    while let Some(b) = it.next(&bc).unwrap() {
        walked.push(b);
    }
    assert_eq!(walked.len(), expected.len());
    for (a, b) in walked.iter().zip(expected.iter()) {
        assert_eq!(a.hash(), b.hash());
        assert_eq!(a.data(), b.data());
    }
    // At the zero sentinel the iterator keeps answering None.
    assert!(it.next(&bc).unwrap().is_none());
    assert!(it.next(&bc).unwrap().is_none());
    // A fresh iterator restarts at the tip.
    let mut it2 = bc.iter();
    let first = it2.next(&bc).unwrap().unwrap();
    assert_eq!(first.hash(), bc.tip().as_slice());
}

#[test]
fn independent_stores_same_payloads_independent_invariants() {
    let payloads: [&[u8]; 2] = [b"Send 1 BTC to Ivan", b"Send 2 more BTC to Ivan"];
    let mut chains = Vec::new();
    for _ in 0..2 {
        let mut bc = Blockchain::new_temporary(2).unwrap();
        for p in payloads.iter() {
            bc.add_block(p).unwrap();
        }
        let chain = bc.blocks().unwrap();
        assert_eq!(chain.len(), 3);
        for b in &chain {
            let pow = ProofOfWork::with_difficulty(b, 2);
            assert!(pow.validate());
        }
        assert_eq!(chain[0].prev_block_hash(), chain[1].hash());
        assert_eq!(chain[1].prev_block_hash(), chain[2].hash());
        assert_eq!(chain[2].prev_block_hash(), &[0u8; 32]);
        chains.push(chain);
    }
    // The two stores hold the same payloads; their hashes need not agree
    // (the timestamps may differ), and nothing here requires it.
    assert_eq!(chains[0][0].data(), chains[1][0].data());
    assert_eq!(chains[0][1].data(), chains[1][1].data());
    assert_eq!(chains[0][2].data(), chains[1][2].data());
}

#[test]
fn read_block_distinguishes_absence() {
    let mut bc = Blockchain::new_temporary(1).unwrap();
    let h = bc.add_block(b"lookup me").unwrap();
    let found = bc.read_block(h.as_slice()).unwrap();
    assert_eq!(found.unwrap().data(), &b"lookup me".to_vec());
    let absent = bc.read_block(&[0x42u8; 32]).unwrap();
    assert!(absent.is_none());
}

#[test]
fn tip_advances_with_each_append() {
    let mut bc = Blockchain::new_temporary(1).unwrap();
    let genesis_tip = bc.tip().clone();
    let h1 = bc.add_block(b"one").unwrap();
    assert_ne!(&h1, &genesis_tip);
    assert_eq!(bc.tip(), &h1);
    let h2 = bc.add_block(b"two").unwrap();
    assert_eq!(bc.tip(), &h2);
    // The new block records the old tip as its predecessor.
    let b2 = bc.read_block(h2.as_slice()).unwrap().unwrap();
    assert_eq!(b2.prev_block_hash(), h1.as_slice());
}

#[test]
fn chain_error_variants_are_distinct() {
    assert_ne!(ChainError::StorageUnavailable, ChainError::StorageOpFailed);
    assert_ne!(ChainError::CorruptChain, ChainError::MiningExhausted);
    assert_eq!(ChainError::CorruptChain, ChainError::CorruptChain);
}
