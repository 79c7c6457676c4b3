//! Ledger engine of a toy proof-of-work currency: content-addressed blocks and
//! transactions, an index of unspent outputs, a pool of pending transactions and
//! the difficulty target, with every rule stated as a contract and proved.

pub mod bytes;
pub mod codec;
pub mod crypto;
pub mod encoding;
pub mod error;
pub mod network;
pub mod node;
pub mod sha256;
pub mod types;
pub mod u256;
pub mod util;

use vstd::prelude::*;

verus! {

/// The reward of the first blocks, in whole coins; a coin is 10^8 of the smallest unit.
pub const INITIAL_REWARD: u64 = 50;

/// After how many blocks the reward halves.
pub const HALVING_INTERVAL: u64 = 210;

/// How many seconds a block should take.
pub const IDEAL_BLOCK_TIME: u64 = 10;

/// After how many blocks the target is adjusted.
pub const DIFFICULTY_UPDATE_INTERVAL: u64 = 50;

/// After how many seconds a pending transaction is dropped.
pub const MAX_MEMPOOL_TRANSACTION_AGE: u64 = 600;

/// The easiest target there is, two to the 240 less one: no target may exceed it.
pub open spec fn spec_min_target() -> crate::u256::U256 {
    crate::u256::U256 {
        w3: 0x0000_FFFF_FFFF_FFFF,
        w2: 0xFFFF_FFFF_FFFF_FFFF,
        w1: 0xFFFF_FFFF_FFFF_FFFF,
        w0: 0xFFFF_FFFF_FFFF_FFFF,
    }
}

/// The easiest target there is.
#[verifier::when_used_as_spec(spec_min_target)]
pub fn min_target() -> (target: crate::u256::U256)
    ensures
        target == spec_min_target(),
        target@ == 0xFFFF_FFFF_FFFF_FFFF_FFFF_FFFF_FFFF_FFFF_FFFF_FFFF_FFFF_FFFF_FFFF_FFFF_FFFFnat,
{
    crate::u256::U256 {
        w3: 0x0000_FFFF_FFFF_FFFF,
        w2: 0xFFFF_FFFF_FFFF_FFFF,
        w1: 0xFFFF_FFFF_FFFF_FFFF,
        w0: 0xFFFF_FFFF_FFFF_FFFF,
    }
}

} // verus!
