//! Core of a permissioned rollup sequencer: signed transactions are admitted
//! into pools, sealed into a chain of signed blocks, and announced to peers.

use vstd::prelude::*;

pub mod address;
pub mod block;
pub mod blockchain;
pub mod clock;
pub mod codec;
pub mod crypto;
pub mod hex;
pub mod network;
pub mod sequencer;
pub mod signer;
pub mod transaction;

pub use address::Address;
pub use block::{Block, BlockHeader, SignedBlockHeader};
pub use blockchain::Blockchain;
pub use sequencer::Sequencer;
pub use signer::{Signature, Signer};
pub use transaction::{SignedTransaction, Transaction};

verus! {

/// Identifier of the network that every transaction header carries.
pub const CHAIN_ID: u64 = 83479;

/// Seconds between two seals.
pub const BLOCK_PERIOD_SECS: u64 = 2;

} // verus!
