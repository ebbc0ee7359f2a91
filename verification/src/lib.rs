//! Bitcoin tooling: a mempool-to-block transaction selection engine, together
//! with small Base58Check, mnemonic and wallet-record utilities.

pub mod assembler;
pub mod base58;
pub mod bip39;
pub mod cycle;
pub mod digest;
pub mod entropy;
pub mod error;
pub mod graph;
pub mod laws;
pub mod mempool;
pub mod pool;
pub mod ready;
pub mod schedule;
pub mod tally;
pub mod text;
pub mod transaction;
pub mod wallet;
