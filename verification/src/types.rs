//! The data of the ledger: transactions, blocks, the set of unspent outputs, the chain.

pub mod block;
pub mod blockchain;
pub mod laws;
pub mod mempool;
pub mod rules;
pub mod transaction;
pub mod utxo;

pub use self::block::{Block, BlockHeader, BlockView};
pub use self::blockchain::{Blockchain, BlockchainView};
pub use self::transaction::{Transaction, TransactionInput, TransactionOutput, TransactionView};
pub use self::utxo::{UtxoEntry, UtxoSet};
