//! Proof-of-work: the search for a nonce that brings the digest of a block under the target.

use vstd::arithmetic::power2::pow2;
use vstd::prelude::*;
use vstd::utf8::encode_utf8;

use crate::blocks::{Block, BlockView};
use crate::encoding::{
    be_bytes, lemma_be_bytes_len, to_unsigned32, to_unsigned64, unsigned32, unsigned64, write_be,
};
use crate::error::BlockchainError;
use crate::helpers::{
    be_less_than, be_value, digest_input_ok, hex_encode, hex_lower, power_of_two_bytes,
    sha256_digest, spec_sha256,
};

verus! {

/// The nonces that a search tries are those below this bound.
pub const MAX_NONCE: i64 = i64::MAX;

/// The number of leading zero bits that a digest needs.
pub const TARGET_BITS: i32 = 8;

/// The target: a digest, read as a number, has to stay below it.
pub open spec fn target() -> nat {
    pow2((256 - TARGET_BITS) as nat)
}

/// What is digested for a nonce: the hash of the block before, the digest of the
/// transactions, the timestamp, the target bits and the nonce, the numbers big-endian.
pub open spec fn pow_input(block: BlockView, nonce: i64) -> Seq<u8> {
    encode_utf8(block.prev_hash) + block.transactions_digest() + be_bytes(
        unsigned64(block.timestamp),
        8,
    ) + be_bytes(unsigned32(TARGET_BITS), 4) + be_bytes(unsigned64(nonce), 8)
}

/// The digest of a block at a nonce.
pub open spec fn pow_digest(block: BlockView, nonce: i64) -> Seq<u8> {
    spec_sha256(pow_input(block, nonce))
}

/// Whether the digest at a nonce is under the target.
pub open spec fn meets_target(block: BlockView, nonce: i64) -> bool {
    be_value(pow_digest(block, nonce)) < target()
}

/// Whether `nonce` is the first one, counting from zero, that meets the target.
pub open spec fn first_nonce(block: BlockView, nonce: i64) -> bool {
    &&& 0 <= nonce < MAX_NONCE
    &&& meets_target(block, nonce)
    &&& forall|n: i64| 0 <= n < nonce ==> !meets_target(block, n)
}

/// Whether no nonce under the bound meets the target.
pub open spec fn no_nonce(block: BlockView) -> bool {
    forall|n: i64| 0 <= n < MAX_NONCE ==> !meets_target(block, n)
}

/// A block is valid when the digest at its nonce is under the target and its hash is that
/// digest in hexadecimal.
pub open spec fn pow_valid(block: BlockView) -> bool {
    meets_target(block, block.nonce) && block.hash == hex_lower(pow_digest(block, block.nonce))
}

/// The search reads the hash of the block before, the transactions and the timestamp, and
/// nothing else of a block.
pub proof fn lemma_pow_reads(left: BlockView, right: BlockView)
    requires
        left.prev_hash == right.prev_hash,
        left.transactions == right.transactions,
        left.timestamp == right.timestamp,
    ensures
        forall|n: i64|
            #![trigger pow_digest(left, n)]
            #![trigger pow_digest(right, n)]
            pow_digest(left, n) == pow_digest(right, n),
        forall|n: i64|
            #![trigger meets_target(left, n)]
            #![trigger meets_target(right, n)]
            meets_target(left, n) == meets_target(right, n),
        forall|n: i64|
            #![trigger first_nonce(left, n)]
            #![trigger first_nonce(right, n)]
            first_nonce(left, n) == first_nonce(right, n),
        no_nonce(left) == no_nonce(right),
{
    assert forall|n: i64|
        #![trigger pow_digest(left, n)]
        #![trigger pow_digest(right, n)]
        pow_digest(left, n) == pow_digest(right, n) by {
        assert(pow_input(left, n) == pow_input(right, n));
    }
    assert forall|n: i64|
        #![trigger meets_target(left, n)]
        #![trigger meets_target(right, n)]
        meets_target(left, n) == meets_target(right, n) by {
        assert(pow_digest(left, n) == pow_digest(right, n));
    }
}

/// A block together with the target that its digest has to stay under.
pub struct ProofOfWork {
    block: Block,
    target: Vec<u8>,
}

impl ProofOfWork {
    #[verifier::type_invariant]
    spec fn inv(self) -> bool {
        be_value(self.target@) == target()
    }

    /// The block that is worked on.
    pub closed spec fn block(self) -> BlockView {
        self.block@
    }

    pub fn new(block: Block) -> (pow: Self)
        ensures
            pow.block() == block@,
    {
        let target = power_of_two_bytes((256 - TARGET_BITS) as usize);
        Self { block, target }
    }

    /// The bytes that are digested for a nonce.
    pub fn prepare_data(&self, nonce: i64) -> (data: Vec<u8>)
        ensures
            data@ == pow_input(self.block(), nonce),
            digest_input_ok(data@.len()),
    {
        proof {
            use_type_invariant(self);
            lemma_be_bytes_len(unsigned64(self.block@.timestamp), 8);
            lemma_be_bytes_len(unsigned32(TARGET_BITS), 4);
            lemma_be_bytes_len(unsigned64(nonce), 8);
        }
        let pre_block_hash = self.block.get_prev_block_hash();
        let transaction_hash = self.block.hash_transactions();
        let timestamp = self.block.get_timestamp();
        let mut data_bytes: Vec<u8> = Vec::new();
        data_bytes.extend_from_slice(pre_block_hash.as_str().as_bytes());
        data_bytes.extend_from_slice(transaction_hash.as_slice());
        write_be(&mut data_bytes, to_unsigned64(timestamp), 8);
        write_be(&mut data_bytes, to_unsigned32(TARGET_BITS), 4);
        write_be(&mut data_bytes, to_unsigned64(nonce), 8);
        assert(data_bytes@ =~= pow_input(self.block(), nonce));
        data_bytes
    }

    /// Tries the nonces from zero upwards and returns the first that meets the target, with
    /// the digest there, of 32 bytes, in hexadecimal, which makes 64 characters.
    pub fn run(&self) -> (found: Result<(i64, String), BlockchainError>)
        ensures
            match found {
                Ok((nonce, hash)) => {
                    &&& first_nonce(self.block(), nonce)
                    &&& hash@ == hex_lower(pow_digest(self.block(), nonce))
                    &&& pow_digest(self.block(), nonce).len() == 32
                    &&& hash@.len() == 64
                },
                Err(e) => e == BlockchainError::NonceExhausted && no_nonce(self.block()),
            },
    {
        proof {
            use_type_invariant(self);
        }
        let mut nonce: i64 = 0;
        while nonce < MAX_NONCE
            invariant
                0 <= nonce <= MAX_NONCE,
                be_value(self.target@) == target(),
                forall|n: i64| 0 <= n < nonce ==> !meets_target(self.block(), n),
            decreases MAX_NONCE - nonce,
        {
            let data = self.prepare_data(nonce);
            let hash = sha256_digest(data.as_slice());
            if be_less_than(hash.as_slice(), self.target.as_slice()) {
                return Ok((nonce, hex_encode(hash.as_slice())));
            }
            nonce = nonce + 1;
        }
        Err(BlockchainError::NonceExhausted)
    }
}

} // verus!
