//! The errors of the ledger.

use vstd::prelude::*;

verus! {

/// The ways in which an operation of the ledger can fail.
#[derive(Debug, Clone, Copy, PartialEq, Eq, Structural)]
pub enum BlockchainError {
    /// No tip is recorded: there is no ledger to open.
    NoLedger,
    /// A transaction does not verify, or refers to an output that the ledger does not hold.
    InvalidTransaction,
    /// The spendable outputs of the sender do not cover the amount.
    InsufficientFunds,
    /// An address does not decode to a version, a key hash and a checksum.
    InvalidAddress,
    /// What was loaded from the store is not a ledger.
    StoreError,
    /// A key could not be generated or loaded, a signature could not be made, or what was
    /// to be digested is too long for the digest.
    CryptoError,
    /// No nonce below the bound gives a hash under the target.
    NonceExhausted,
    /// No wallet is held for the address.
    WalletNotFound,
}

} // verus!
