//! Blocks: a batch of transactions chained to the block before it and sealed by
//! proof-of-work.

use vstd::prelude::*;
use vstd::utf8::encode_utf8;

use crate::encoding::{
    copy_bytes, encode_bytes, encode_i64, encode_u64, write_bytes, write_i64, write_u64,
};
use crate::decoding::{
    block_storable, lemma_parse_block_encoding, parse_block, read_block, transaction_storable,
};
use crate::error::BlockchainError;
use crate::helpers::{
    current_timestamp, digest_input_ok, hex_lower, sha256_digest, spec_sha256, DIGEST_INPUT_LIMIT,
};
use crate::proof_of_work::{
    first_nonce, lemma_pow_reads, no_nonce, pow_digest, pow_valid, ProofOfWork,
};
use crate::transaction::{clone_transactions, transactions_view, Transaction, TransactionView};

verus! {

/// A block of the ledger.
#[derive(Debug)]
pub struct Block {
    timestamp: i64,
    pre_block_hash: String,
    hash: String,
    transactions: Vec<Transaction>,
    nonce: i64,
    height: usize,
}

pub struct BlockView {
    pub timestamp: i64,
    pub prev_hash: Seq<char>,
    pub hash: Seq<char>,
    pub transactions: Seq<TransactionView>,
    pub nonce: i64,
    pub height: usize,
}

/// The ids of the transactions, one after the other.
pub open spec fn concat_ids(transactions: Seq<TransactionView>) -> Seq<u8>
    decreases transactions.len(),
{
    if transactions.len() == 0 {
        Seq::empty()
    } else {
        concat_ids(transactions.drop_last()) + transactions.last().id
    }
}

/// The encodings of the transactions, one after the other.
pub open spec fn encode_transactions(transactions: Seq<TransactionView>) -> Seq<u8>
    decreases transactions.len(),
{
    if transactions.len() == 0 {
        Seq::empty()
    } else {
        encode_transactions(transactions.drop_last()) + transactions.last().encoding()
    }
}

/// The ids of the first transactions of a list are no longer than the ids of all.
pub proof fn lemma_concat_ids_prefix(transactions: Seq<TransactionView>, count: int)
    requires
        0 <= count <= transactions.len(),
    ensures
        concat_ids(transactions.take(count)).len() <= concat_ids(transactions).len(),
    decreases transactions.len(),
{
    if count == transactions.len() {
        assert(transactions.take(count) =~= transactions);
    } else {
        lemma_concat_ids_prefix(transactions.drop_last(), count);
        assert(transactions.drop_last().take(count) =~= transactions.take(count));
    }
}

impl BlockView {
    /// The digest of the ids of the transactions, in their order.
    pub open spec fn transactions_digest(self) -> Seq<u8> {
        spec_sha256(concat_ids(self.transactions))
    }

    /// Whether the ids of the transactions, and the bytes digested for a nonce, are short
    /// enough to digest. Every block is.
    pub open spec fn hashable(self) -> bool {
        &&& digest_input_ok(concat_ids(self.transactions).len())
        &&& digest_input_ok(encode_utf8(self.prev_hash).len() + 52)
    }

    /// The encoding of a block: its six fields in order.
    pub open spec fn encoding(self) -> Seq<u8> {
        encode_i64(self.timestamp) + encode_bytes(encode_utf8(self.prev_hash)) + encode_bytes(
            encode_utf8(self.hash),
        ) + encode_u64(self.transactions.len() as u64) + encode_transactions(self.transactions)
            + encode_i64(self.nonce) + encode_u64(self.height as u64)
    }

    /// The block before the search for a nonce: no hash yet, and nonce zero.
    pub open spec fn candidate(
        timestamp: i64,
        prev_hash: Seq<char>,
        transactions: Seq<TransactionView>,
        height: usize,
    ) -> BlockView {
        BlockView { timestamp, prev_hash, hash: Seq::empty(), transactions, nonce: 0, height }
    }

    /// The block with the nonce that was found and the digest there as its hash.
    pub open spec fn sealed(self, nonce: i64) -> BlockView {
        BlockView { nonce, hash: hex_lower(pow_digest(self, nonce)), ..self }
    }
}

impl View for Block {
    type V = BlockView;

    closed spec fn view(&self) -> BlockView {
        BlockView {
            timestamp: self.timestamp,
            prev_hash: self.pre_block_hash@,
            hash: self.hash@,
            transactions: transactions_view(self.transactions@),
            nonce: self.nonce,
            height: self.height,
        }
    }
}

impl Clone for Block {
    fn clone(&self) -> (copy: Self)
        ensures
            copy@ == self@,
    {
        proof {
            use_type_invariant(self);
        }
        Block {
            timestamp: self.timestamp,
            pre_block_hash: self.pre_block_hash.clone(),
            hash: self.hash.clone(),
            transactions: clone_transactions(self.transactions.as_slice()),
            nonce: self.nonce,
            height: self.height,
        }
    }
}

/// Whether the ids of the transactions are short enough to digest together.
fn ids_fit_digest(transactions: &[Transaction]) -> (ok: bool)
    ensures
        ok == digest_input_ok(concat_ids(transactions_view(transactions@)).len()),
{
    let ghost all = transactions_view(transactions@);
    let mut total: u64 = 0;
    let mut i: usize = 0;
    while i < transactions.len()
        invariant
            i <= transactions@.len(),
            all == transactions_view(transactions@),
            total == concat_ids(all.take(i as int)).len(),
            total < DIGEST_INPUT_LIMIT,
        decreases transactions@.len() - i,
    {
        let len: usize = transactions[i].get_id().len();
        proof {
            assert(all.take(i + 1).drop_last() =~= all.take(i as int));
            assert(all.take(i + 1).last() == transactions@[i as int]@);
        }
        if len as u64 >= DIGEST_INPUT_LIMIT - total {
            proof {
                lemma_concat_ids_prefix(all, i + 1);
            }
            return false;
        }
        total = total + len as u64;
        i = i + 1;
    }
    assert(all.take(i as int) =~= all);
    true
}

/// Whether a hash of `len` bytes leaves the bytes digested for a nonce short enough.
fn prev_hash_fits_digest(len: usize) -> (ok: bool)
    ensures
        ok == digest_input_ok((len + 52) as nat),
{
    (len as u64) < DIGEST_INPUT_LIMIT - 52
}

impl Block {
    #[verifier::type_invariant]
    spec fn inv(self) -> bool {
        self@.hashable()
    }

    /// A block of the six given fields; `None` where the ids of the transactions or the hash
    /// of the block before are too long to digest.
    pub fn from_parts(
        timestamp: i64,
        pre_block_hash: String,
        hash: String,
        transactions: Vec<Transaction>,
        nonce: i64,
        height: usize,
    ) -> (block: Option<Self>)
        ensures
            match block {
                Some(b) => b@.hashable() && b@ == (BlockView {
                    timestamp,
                    prev_hash: pre_block_hash@,
                    hash: hash@,
                    transactions: transactions_view(transactions@),
                    nonce,
                    height,
                }),
                None => !BlockView::candidate(
                    timestamp,
                    pre_block_hash@,
                    transactions_view(transactions@),
                    height,
                ).hashable(),
            },
    {
        if ids_fit_digest(transactions.as_slice()) && prev_hash_fits_digest(
            pre_block_hash.as_str().as_bytes().len(),
        ) {
            Some(Block { timestamp, pre_block_hash, hash, transactions, nonce, height })
        } else {
            None
        }
    }

    /// Seals the given transactions into a block with the given timestamp: the nonce is the
    /// first that meets the target, the hash the digest there.
    pub fn mine(
        timestamp: i64,
        pre_block_hash: String,
        transactions: &[Transaction],
        height: usize,
    ) -> (block: Result<Self, BlockchainError>)
        ensures
            ({
                let candidate = BlockView::candidate(
                    timestamp,
                    pre_block_hash@,
                    transactions_view(transactions@),
                    height,
                );
                match block {
                    Ok(b) => {
                        &&& candidate.hashable()
                        &&& first_nonce(candidate, b@.nonce)
                        &&& b@ == candidate.sealed(b@.nonce)
                        &&& pow_valid(b@)
                        &&& pow_digest(b@, b@.nonce).len() == 32
                        &&& b@.hash.len() == 64
                    },
                    Err(e) => if candidate.hashable() {
                        e == BlockchainError::NonceExhausted && no_nonce(candidate)
                    } else {
                        e == BlockchainError::CryptoError
                    },
                }
            }),
    {
        let candidate = Self::from_parts(
            timestamp,
            pre_block_hash,
            String::new(),
            clone_transactions(transactions),
            0,
            height,
        );
        let mut block = match candidate {
            Some(block) => block,
            None => {
                return Err(BlockchainError::CryptoError);
            },
        };
        let pow = ProofOfWork::new(block.clone());
        match pow.run() {
            Ok((nonce, hash)) => {
                block.nonce = nonce;
                block.hash = hash;
                Ok(block)
            },
            Err(e) => Err(e),
        }
    }

    /// Seals the given transactions into a block stamped with the present time.
    pub fn new(pre_block_hash: String, transactions: &[Transaction], height: usize) -> (block:
        Result<Self, BlockchainError>)
        ensures
            match block {
                Ok(b) => {
                    &&& b@ == BlockView::candidate(
                        b@.timestamp,
                        pre_block_hash@,
                        transactions_view(transactions@),
                        height,
                    ).sealed(b@.nonce)
                    &&& first_nonce(b@, b@.nonce)
                    &&& pow_valid(b@)
                    &&& pow_digest(b@, b@.nonce).len() == 32
                    &&& b@.hash.len() == 64
                    &&& b@.timestamp >= 0
                },
                Err(e) => if BlockView::candidate(
                    0,
                    pre_block_hash@,
                    transactions_view(transactions@),
                    height,
                ).hashable() {
                    &&& e == BlockchainError::NonceExhausted
                    &&& exists|timestamp: i64|
                        timestamp >= 0 && no_nonce(
                            #[trigger] BlockView::candidate(
                                timestamp,
                                pre_block_hash@,
                                transactions_view(transactions@),
                                height,
                            ),
                        )
                } else {
                    e == BlockchainError::CryptoError
                },
            },
    {
        let ghost prev_hash = pre_block_hash@;
        let timestamp = current_timestamp();
        let block = Self::mine(timestamp, pre_block_hash, transactions, height);
        proof {
            if block is Err {
                let candidate = BlockView::candidate(
                    timestamp,
                    prev_hash,
                    transactions_view(transactions@),
                    height,
                );
                if candidate.hashable() {
                    assert(no_nonce(candidate));
                }
            }
        }
        proof {
            if block is Ok {
                let b = block->Ok_0;
                lemma_pow_reads(
                    BlockView::candidate(
                        b@.timestamp,
                        prev_hash,
                        transactions_view(transactions@),
                        height,
                    ),
                    b@,
                );
            }
        }
        block
    }

    /// The first block of a ledger: no block before it, height zero, one transaction.
    pub fn generate_genesis_block(transaction: &Transaction) -> (block: Result<
        Self,
        BlockchainError,
    >)
        ensures
            match block {
                Ok(b) => {
                    &&& b@ == BlockView::candidate(
                        b@.timestamp,
                        "None"@,
                        seq![transaction@],
                        0,
                    ).sealed(b@.nonce)
                    &&& first_nonce(b@, b@.nonce)
                    &&& pow_valid(b@)
                    &&& pow_digest(b@, b@.nonce).len() == 32
                    &&& b@.hash.len() == 64
                },
                Err(e) => if digest_input_ok(transaction@.id.len()) {
                    &&& e == BlockchainError::NonceExhausted
                    &&& exists|timestamp: i64|
                        timestamp >= 0 && no_nonce(
                            #[trigger] BlockView::candidate(
                                timestamp,
                                "None"@,
                                seq![transaction@],
                                0,
                            ),
                        )
                } else {
                    e == BlockchainError::CryptoError
                },
            },
    {
        let mut transactions: Vec<Transaction> = Vec::new();
        transactions.push(transaction.clone());
        proof {
            reveal_strlit("None");
            assert(transactions_view(transactions@) =~= seq![transaction@]);
            assert(seq![transaction@].drop_last() =~= Seq::<TransactionView>::empty());
            assert(concat_ids(Seq::<TransactionView>::empty()) =~= Seq::<u8>::empty());
            assert(seq![transaction@].last() == transaction@);
            assert(concat_ids(seq![transaction@]) =~= transaction@.id);
            vstd::utf8::is_ascii_chars_encode_utf8("None"@);
        }
        let block = Self::new(String::from_str("None"), transactions.as_slice(), 0);
        proof {
            if block is Err && digest_input_ok(transaction@.id.len()) {
                let timestamp = choose|timestamp: i64|
                    timestamp >= 0 && no_nonce(
                        #[trigger] BlockView::candidate(
                            timestamp,
                            "None"@,
                            transactions_view(transactions@),
                            0,
                        ),
                    );
                assert(no_nonce(BlockView::candidate(timestamp, "None"@, seq![transaction@], 0)));
            }
        }
        block
    }

    /// The digest of the ids of the transactions.
    pub fn hash_transactions(&self) -> (digest: Vec<u8>)
        ensures
            digest@ == self@.transactions_digest(),
            digest@.len() == 32,
    {
        proof {
            use_type_invariant(self);
        }
        let ghost all = self@.transactions;
        let mut txhashs: Vec<u8> = Vec::new();
        let mut i: usize = 0;
        while i < self.transactions.len()
            invariant
                i <= self.transactions@.len(),
                all == transactions_view(self.transactions@),
                txhashs@ == concat_ids(all.take(i as int)),
            decreases self.transactions@.len() - i,
        {
            txhashs.extend_from_slice(self.transactions[i].get_id());
            proof {
                assert(all.take(i + 1).drop_last() =~= all.take(i as int));
                assert(all.take(i + 1).last() == self.transactions@[i as int]@);
            }
            i = i + 1;
        }
        assert(all.take(i as int) =~= all);
        sha256_digest(txhashs.as_slice())
    }

    /// The block that a prefix of the bytes encodes; `None` where no prefix encodes a block
    /// that is short enough to digest.
    pub fn deserialize(bytes: &[u8]) -> (block: Option<Self>)
        ensures
            match block {
                Some(b) => parse_block(bytes@) matches Some((view, _)) && b@ == view,
                None => parse_block(bytes@) is None,
            },
    {
        assert(bytes@.skip(0) =~= bytes@);
        match read_block(bytes, 0) {
            Some((block, _)) => Some(block),
            None => None,
        }
    }

    /// The encoding of the block. It is read back as this block.
    pub fn serialize(&self) -> (bytes: Vec<u8>)
        ensures
            bytes@ == self@.encoding(),
            parse_block(bytes@) == Some((self@, Seq::<u8>::empty())),
    {
        proof {
            use_type_invariant(self);
        }
        let ghost all = self@.transactions;
        let mut bytes: Vec<u8> = Vec::new();
        write_i64(&mut bytes, self.timestamp);
        write_bytes(&mut bytes, self.pre_block_hash.as_str().as_bytes());
        write_bytes(&mut bytes, self.hash.as_str().as_bytes());
        write_u64(&mut bytes, self.transactions.len() as u64);
        let ghost start = bytes@;
        let mut i: usize = 0;
        while i < self.transactions.len()
            invariant
                i <= self.transactions@.len(),
                all == transactions_view(self.transactions@),
                bytes@ == start + encode_transactions(all.take(i as int)),
                forall|j: int| 0 <= j < i ==> transaction_storable(#[trigger] all[j]),
            decreases self.transactions@.len() - i,
        {
            self.transactions[i].write(&mut bytes);
            proof {
                assert(all.take(i + 1).drop_last() =~= all.take(i as int));
                assert(all.take(i + 1).last() == self.transactions@[i as int]@);
                assert(bytes@ =~= start + encode_transactions(all.take(i + 1)));
            }
            i = i + 1;
        }
        assert(all.take(i as int) =~= all);
        write_i64(&mut bytes, self.nonce);
        write_u64(&mut bytes, self.height as u64);
        proof {
            assert(bytes@ =~= self@.encoding());
            assert(block_storable(self@));
            lemma_parse_block_encoding(self@, Seq::empty());
            assert(self@.encoding() + Seq::<u8>::empty() =~= self@.encoding());
        }
        bytes
    }

    pub fn get_transactions(&self) -> (transactions: &[Transaction])
        ensures
            transactions_view(transactions@) == self@.transactions,
    {
        self.transactions.as_slice()
    }

    pub fn get_prev_block_hash(&self) -> (hash: String)
        ensures
            hash@ == self@.prev_hash,
            self@.hashable(),
    {
        proof {
            use_type_invariant(self);
        }
        self.pre_block_hash.clone()
    }

    pub fn get_hash(&self) -> (hash: &str)
        ensures
            hash@ == self@.hash,
    {
        self.hash.as_str()
    }

    pub fn get_hash_bytes(&self) -> (bytes: Vec<u8>)
        ensures
            bytes@ == encode_utf8(self@.hash),
    {
        copy_bytes(self.hash.as_str().as_bytes())
    }

    pub fn get_timestamp(&self) -> (timestamp: i64)
        ensures
            timestamp == self@.timestamp,
    {
        self.timestamp
    }

    pub fn get_nonce(&self) -> (nonce: i64)
        ensures
            nonce == self@.nonce,
    {
        self.nonce
    }

    pub fn get_height(&self) -> (height: usize)
        ensures
            height == self@.height,
    {
        self.height
    }
}

} // verus!
