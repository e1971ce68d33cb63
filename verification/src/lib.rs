//! A minimal UTXO ledger: blocks of signed value transfers secured by
//! proof-of-work, with a derived index of unspent outputs.

pub mod assoc;
pub mod blockchain;
pub mod blocks;
pub mod consistency;
pub mod decoding;
pub mod encoding;
pub mod error;
pub mod helpers;
pub mod laws;
pub mod proof_of_work;
pub mod transaction;
pub mod unspent;
pub mod utxoset;
pub mod wallets;
