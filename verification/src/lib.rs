use vstd::prelude::*;

pub mod bytes;
pub mod digest;
pub mod block;
pub mod proofofwork;
pub mod store;
pub mod blockchain;

verus! {

/// Number of leading zero hexadecimal digits a block hash must show.
pub const DIFFICULTY: u64 = 6;

/// Everything that can go wrong while opening, growing or reading the chain.
#[derive(Clone, Copy, Debug, PartialEq, Eq, Structural)]
pub enum ChainError {
    /// The persistent namespace could not be opened at all.
    StorageUnavailable,
    /// A single read or write failed after the store was open.
    StorageOpFailed,
    /// A stored block is missing, malformed, or inconsistent with its key.
    CorruptChain,
    /// The whole nonce space was searched without a passing digest.
    MiningExhausted,
}

} // verus!
