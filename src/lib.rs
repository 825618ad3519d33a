//! A minimal UTXO-model ledger core: transactions, blocks, proof of work,
//! the unspent-output set, the memory pool, and the append-only chain log.
pub mod block;
pub mod bytes;
pub mod chain_log;
pub mod codec;
pub mod crypto;
pub mod ledger;
pub mod mempool;
pub mod message;
pub mod peers;
pub mod pow;
pub mod state;
pub mod transaction;
pub mod undo;
pub mod utxo;
