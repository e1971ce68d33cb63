//! The ledger: the blocks that a node holds and the hash of the one at the tip.

use vstd::prelude::*;
use vstd::utf8::encode_utf8;

use crate::blocks::{Block, BlockView};
use crate::encoding::bytes_equal;
use crate::error::BlockchainError;
use crate::proof_of_work::{first_nonce, no_nonce, pow_valid};
use crate::transaction::{
    all_verify, transactions_view, Transaction, TransactionView, TxOutput, TxOutputView,
};
use crate::unspent::{entries_view, marks_view, scan_transaction, unspent_outputs, ScanState};
use crate::helpers::digest_input_ok;
use crate::laws::{lemma_extend_linear, lemma_genesis_linear};
use crate::wallets::spec_address_key_hash;

verus! {

/// The key under which a block is kept: its hash as bytes.
pub open spec fn block_key(block: BlockView) -> Seq<u8> {
    encode_utf8(block.hash)
}

/// The place of the block kept under `key`; of two blocks with one key the later one counts.
pub open spec fn find_index(blocks: Seq<BlockView>, key: Seq<u8>) -> Option<int>
    decreases blocks.len(),
{
    if blocks.len() == 0 {
        None
    } else if block_key(blocks.last()) == key {
        Some(blocks.len() - 1)
    } else {
        find_index(blocks.drop_last(), key)
    }
}

/// The block kept under `key`.
pub open spec fn find_block(blocks: Seq<BlockView>, key: Seq<u8>) -> Option<BlockView> {
    match find_index(blocks, key) {
        Some(i) => Some(blocks[i]),
        None => None,
    }
}

/// The blocks met on the way from the block under `key` back along the hashes of the blocks
/// before, until a hash names no block or `fuel` blocks have been met.
pub open spec fn chain_from(blocks: Seq<BlockView>, key: Seq<u8>, fuel: nat) -> Seq<BlockView>
    decreases fuel,
{
    if fuel == 0 {
        Seq::empty()
    } else {
        match find_block(blocks, key) {
            Some(block) => seq![block] + chain_from(
                blocks,
                encode_utf8(block.prev_hash),
                (fuel - 1) as nat,
            ),
            None => Seq::empty(),
        }
    }
}

/// The transactions of a run of blocks, in the order of the blocks.
pub open spec fn chain_transactions(chain: Seq<BlockView>) -> Seq<TransactionView>
    decreases chain.len(),
{
    if chain.len() == 0 {
        Seq::empty()
    } else {
        chain_transactions(chain.drop_last()) + chain.last().transactions
    }
}

/// The first transaction of a list that has the id.
pub open spec fn first_with_id(transactions: Seq<TransactionView>, id: Seq<u8>) -> Option<
    TransactionView,
>
    decreases transactions.len(),
{
    if transactions.len() == 0 {
        None
    } else {
        match first_with_id(transactions.drop_last(), id) {
            Some(found) => Some(found),
            None => if transactions.last().id == id {
                Some(transactions.last())
            } else {
                None
            },
        }
    }
}

/// What `find_index` finds is the last block with the key, and it finds none only where
/// there is none.
pub proof fn lemma_find_index(blocks: Seq<BlockView>, key: Seq<u8>)
    ensures
        match find_index(blocks, key) {
            Some(i) => {
                &&& 0 <= i < blocks.len()
                &&& block_key(blocks[i]) == key
                &&& forall|j: int| i < j < blocks.len() ==> block_key(#[trigger] blocks[j]) != key
            },
            None => forall|j: int| 0 <= j < blocks.len() ==> block_key(#[trigger] blocks[j]) != key,
        },
    decreases blocks.len(),
{
    if blocks.len() > 0 && block_key(blocks.last()) != key {
        lemma_find_index(blocks.drop_last(), key);
        match find_index(blocks.drop_last(), key) {
            Some(i) => {
                assert forall|j: int| i < j < blocks.len() implies block_key(
                    #[trigger] blocks[j],
                ) != key by {
                    if j < blocks.len() - 1 {
                        assert(blocks.drop_last()[j] == blocks[j]);
                    }
                }
            },
            None => {
                assert forall|j: int| 0 <= j < blocks.len() implies block_key(
                    #[trigger] blocks[j],
                ) != key by {
                    if j < blocks.len() - 1 {
                        assert(blocks.drop_last()[j] == blocks[j]);
                    }
                }
            },
        }
    }
}

/// Among the blocks and one more, a key finds the new block if it is its key, and else
/// what it found before.
pub proof fn lemma_find_push(blocks: Seq<BlockView>, block: BlockView, key: Seq<u8>)
    ensures
        find_block(blocks.push(block), key) == if block_key(block) == key {
            Some(block)
        } else {
            find_block(blocks, key)
        },
{
    assert(blocks.push(block).drop_last() =~= blocks);
    lemma_find_index(blocks, key);
}

/// The transactions of two runs of blocks, one after the other.
pub proof fn lemma_chain_transactions_add(left: Seq<BlockView>, right: Seq<BlockView>)
    ensures
        chain_transactions(left + right) == chain_transactions(left) + chain_transactions(right),
    decreases right.len(),
{
    if right.len() == 0 {
        assert(left + right =~= left);
    } else {
        lemma_chain_transactions_add(left, right.drop_last());
        assert((left + right).drop_last() =~= left + right.drop_last());
        assert((left + right).last() == right.last());
    }
    assert(chain_transactions(left + right) =~= chain_transactions(left) + chain_transactions(
        right,
    ));
}

/// In two lists, one after the other, the first transaction with an id is the first in the
/// left list, or else the first in the right one.
pub proof fn lemma_first_with_id_add(
    left: Seq<TransactionView>,
    right: Seq<TransactionView>,
    id: Seq<u8>,
)
    ensures
        first_with_id(left + right, id) == match first_with_id(left, id) {
            Some(found) => Some(found),
            None => first_with_id(right, id),
        },
    decreases right.len(),
{
    if right.len() == 0 {
        assert(left + right =~= left);
    } else {
        lemma_first_with_id_add(left, right.drop_last(), id);
        assert((left + right).drop_last() =~= left + right.drop_last());
        assert((left + right).last() == right.last());
    }
}

pub struct LedgerView {
    pub tip: Seq<char>,
    pub blocks: Seq<BlockView>,
}

impl LedgerView {
    /// A ledger is well formed when the hash at its tip names one of its blocks.
    pub open spec fn wf(self) -> bool {
        find_block(self.blocks, encode_utf8(self.tip)) is Some
    }

    /// Every block that the ledger holds is sealed: its hash is the digest at its nonce,
    /// and that digest is under the target.
    pub open spec fn sealed(self) -> bool {
        forall|i: int| 0 <= i < self.blocks.len() ==> pow_valid(#[trigger] self.blocks[i])
    }

    /// A ledger is linear when its chain leads from the tip, block by block and height by
    /// height, down to a first block of height zero that names the block before it `None`,
    /// a name under which the ledger holds no block.
    pub open spec fn linear(self) -> bool {
        &&& self.wf()
        &&& self.chain().len() == self.best_height() + 1
        &&& forall|i: int|
            0 <= i < self.chain().len() ==> (#[trigger] self.chain()[i]).height
                == self.chain().len() - 1 - i
        &&& self.chain().last().prev_hash == "None"@
        &&& find_block(self.blocks, encode_utf8("None"@)) is None
    }

    /// The block at the tip.
    pub open spec fn tip_block(self) -> BlockView {
        find_block(self.blocks, encode_utf8(self.tip))->0
    }

    /// The height of the block at the tip.
    pub open spec fn best_height(self) -> usize {
        self.tip_block().height
    }

    /// The blocks from the tip back to the first. The walk meets no more blocks than the
    /// ledger holds: a longer one would go round in a circle.
    pub open spec fn chain(self) -> Seq<BlockView> {
        chain_from(self.blocks, encode_utf8(self.tip), self.blocks.len())
    }

    /// The transactions of the chain, those of the tip first.
    pub open spec fn transactions(self) -> Seq<TransactionView> {
        chain_transactions(self.chain())
    }

    /// The transaction of the chain with the id; the one nearest the tip where there are
    /// several.
    pub open spec fn find_transaction(self, id: Seq<u8>) -> Option<TransactionView> {
        first_with_id(self.transactions(), id)
    }

    /// The unspent outputs of the chain, by transaction id: see `unspent_outputs`.
    pub open spec fn find_utxo(self) -> Seq<(Seq<u8>, Seq<TxOutputView>)> {
        unspent_outputs(self.transactions())
    }

    /// The ledger after a block was handed to it: a block whose hash is known changes
    /// nothing; another one is kept, and becomes the tip if it is higher than the tip.
    pub open spec fn add_block(self, block: BlockView) -> LedgerView {
        if find_block(self.blocks, block_key(block)) is Some {
            self
        } else {
            LedgerView {
                tip: if block.height > self.best_height() {
                    block.hash
                } else {
                    self.tip
                },
                blocks: self.blocks.push(block),
            }
        }
    }

    /// The ledger after a block was put on its tip.
    pub open spec fn extend(self, block: BlockView) -> LedgerView {
        LedgerView { tip: block.hash, blocks: self.blocks.push(block) }
    }
}

/// The views of a list of blocks.
pub open spec fn blocks_view(blocks: Seq<Block>) -> Seq<BlockView> {
    Seq::new(blocks.len(), |i: int| blocks[i]@)
}

/// The place of the block kept under `key`.
fn position(blocks: &Vec<Block>, key: &[u8]) -> (found: Option<usize>)
    ensures
        match found {
            Some(i) => find_index(blocks_view(blocks@), key@) == Some(i as int) && i < blocks@.len(),
            None => find_index(blocks_view(blocks@), key@) is None,
        },
{
    let ghost views = blocks_view(blocks@);
    let mut i: usize = blocks.len();
    assert(views.take(i as int) =~= views);
    while i > 0
        invariant
            i <= blocks@.len(),
            views == blocks_view(blocks@),
            find_index(views, key@) == find_index(views.take(i as int), key@),
        decreases i,
    {
        i = i - 1;
        proof {
            assert(views.take(i + 1).drop_last() =~= views.take(i as int));
            assert(views.take(i + 1).last() == blocks@[i as int]@);
        }
        if bytes_equal(blocks[i].get_hash().as_bytes(), key) {
            return Some(i);
        }
    }
    proof {
        assert(views.take(blocks@.len() as int) =~= views);
    }
    None
}

/// A copy of a list of blocks.
fn clone_blocks(blocks: &Vec<Block>) -> (copy: Vec<Block>)
    ensures
        blocks_view(copy@) == blocks_view(blocks@),
{
    let mut copy: Vec<Block> = Vec::new();
    let mut i: usize = 0;
    while i < blocks.len()
        invariant
            i <= blocks@.len(),
            copy@.len() == i,
            forall|j: int| 0 <= j < i ==> copy@[j]@ == blocks@[j]@,
        decreases blocks@.len() - i,
    {
        copy.push(blocks[i].clone());
        i = i + 1;
    }
    assert(blocks_view(copy@) =~= blocks_view(blocks@));
    copy
}

/// The ledger of a node.
#[derive(Debug)]
pub struct Blockchain {
    latest_blk_hash: String,
    blocks: Vec<Block>,
}

impl View for Blockchain {
    type V = LedgerView;

    closed spec fn view(&self) -> LedgerView {
        LedgerView { tip: self.latest_blk_hash@, blocks: blocks_view(self.blocks@) }
    }
}

impl Clone for Blockchain {
    fn clone(&self) -> (copy: Self)
        ensures
            copy@ == self@,
    {
        Blockchain {
            latest_blk_hash: self.latest_blk_hash.clone(),
            blocks: clone_blocks(&self.blocks),
        }
    }
}

impl Blockchain {
    /// The ledger of the blocks and the tip that a store holds. A store without a tip holds
    /// no ledger; a tip that names none of the blocks is a fault of the store.
    pub fn new(blocks: Vec<Block>, latest_blk_hash: Option<String>) -> (ledger: Result<
        Self,
        BlockchainError,
    >)
        ensures
            match ledger {
                Ok(l) => {
                    &&& latest_blk_hash matches Some(tip)
                    &&& l@ == (LedgerView { tip: tip@, blocks: blocks_view(blocks@) })
                    &&& l@.wf()
                },
                Err(e) => match latest_blk_hash {
                    Some(tip) => {
                        &&& e == BlockchainError::StoreError
                        &&& !(LedgerView { tip: tip@, blocks: blocks_view(blocks@) }).wf()
                    },
                    None => e == BlockchainError::NoLedger,
                },
            },
    {
        match latest_blk_hash {
            Some(tip) => {
                if position(&blocks, tip.as_str().as_bytes()).is_some() {
                    Ok(Blockchain { latest_blk_hash: tip, blocks })
                } else {
                    Err(BlockchainError::StoreError)
                }
            },
            None => Err(BlockchainError::NoLedger),
        }
    }

    /// The ledger of a store, begun where the store holds no tip: a first block is then
    /// sealed whose one transaction is a coinbase to `genesis_address`, and it becomes the
    /// tip.
    pub fn init(blocks: Vec<Block>, latest_blk_hash: Option<String>, genesis_address: &str) -> (ledger:
        Result<Self, BlockchainError>)
        ensures
            match latest_blk_hash {
                Some(tip) => match ledger {
                    Ok(l) => l@ == (LedgerView { tip: tip@, blocks: blocks_view(blocks@) })
                        && l@.wf(),
                    Err(e) => e == BlockchainError::StoreError && !(LedgerView {
                        tip: tip@,
                        blocks: blocks_view(blocks@),
                    }).wf(),
                },
                None => match ledger {
                    Ok(l) => {
                        let genesis = l@.blocks.last();
                        &&& l@.wf()
                        &&& l@.blocks == blocks_view(blocks@).push(genesis)
                        &&& l@.tip == genesis.hash
                        &&& spec_address_key_hash(genesis_address@) matches Some(hash)
                        &&& is_genesis(genesis, hash)
                        &&& blocks_view(blocks@).len() == 0 ==> l@.sealed() && l@.linear()
                    },
                    Err(e) => match spec_address_key_hash(genesis_address@) {
                        None => e == BlockchainError::InvalidAddress,
                        Some(hash) => if e == BlockchainError::CryptoError {
                            exists|tag: Seq<u8>|
                                tag.len() == 16 && !digest_input_ok(
                                    (#[trigger] TransactionView::coinbase(
                                        tag,
                                        hash,
                                    )).digest_input().len(),
                                )
                        } else {
                            &&& e == BlockchainError::NonceExhausted
                            &&& exists|tag: Seq<u8>, timestamp: i64|
                                tag.len() == 16 && timestamp >= 0 && no_nonce(
                                    #[trigger] BlockView::candidate(
                                        timestamp,
                                        "None"@,
                                        seq![TransactionView::coinbase(tag, hash)],
                                        0,
                                    ),
                                )
                        },
                    },
                },
            },
    {
        match latest_blk_hash {
            Some(tip) => Self::new(blocks, Some(tip)),
            None => {
                let coinbase_tx = match Transaction::coinbase_tx(genesis_address) {
                    Ok(tx) => tx,
                    Err(e) => {
                        return Err(e);
                    },
                };
                let block = match Block::generate_genesis_block(&coinbase_tx) {
                    Ok(block) => block,
                    Err(e) => {
                        proof {
                            let hash = spec_address_key_hash(genesis_address@)->0;
                            let tag = coinbase_tx@.vin[0].signature;
                            let timestamp = choose|timestamp: i64|
                                timestamp >= 0 && no_nonce(
                                    #[trigger] BlockView::candidate(
                                        timestamp,
                                        "None"@,
                                        seq![coinbase_tx@],
                                        0,
                                    ),
                                );
                            assert(tag.len() == 16 && timestamp >= 0 && no_nonce(
                                BlockView::candidate(
                                    timestamp,
                                    "None"@,
                                    seq![TransactionView::coinbase(tag, hash)],
                                    0,
                                ),
                            ));
                        }
                        return Err(e);
                    },
                };
                let latest_blk_hash = block.get_hash().to_owned();
                let mut blocks = blocks;
                let ghost before = blocks_view(blocks@);
                blocks.push(block);
                proof {
                    assert(blocks_view(blocks@) =~= before.push(block@));
                    lemma_find_push(before, block@, block_key(block@));
                    if before.len() == 0 {
                        lemma_genesis_linear(
                            LedgerView { tip: block@.hash, blocks: blocks_view(blocks@) },
                            spec_address_key_hash(genesis_address@)->0,
                        );
                    }
                }
                Ok(Blockchain { latest_blk_hash, blocks })
            },
        }
    }

    pub fn get_latest_blk_hash(&self) -> (hash: String)
        ensures
            hash@ == self@.tip,
    {
        self.latest_blk_hash.clone()
    }

    /// Makes the block with the given hash the tip, if the ledger holds such a block; says
    /// whether it does.
    pub fn set_latest_blk_hash(&mut self, new_latest_blk_hash: &str) -> (known: bool)
        ensures
            known == (find_block(old(self)@.blocks, encode_utf8(new_latest_blk_hash@)) is Some),
            final(self)@.blocks == old(self)@.blocks,
            final(self)@.tip == if known {
                new_latest_blk_hash@
            } else {
                old(self)@.tip
            },
            old(self)@.wf() ==> final(self)@.wf(),
    {
        if position(&self.blocks, new_latest_blk_hash.as_bytes()).is_some() {
            self.latest_blk_hash = new_latest_blk_hash.to_owned();
            true
        } else {
            false
        }
    }

    /// Whether the hash at the tip names a block of the ledger. Every ledger that `new` or
    /// `init` made does, and the operations keep it so.
    pub fn is_well_formed(&self) -> (wf: bool)
        ensures
            wf == self@.wf(),
    {
        position(&self.blocks, self.latest_blk_hash.as_str().as_bytes()).is_some()
    }

    /// The blocks that the ledger holds, in the order in which they came.
    pub fn get_blocks(&self) -> (blocks: &[Block])
        ensures
            blocks_view(blocks@) == self@.blocks,
    {
        self.blocks.as_slice()
    }

    /// Seals the given transactions into a block on the tip, one higher than the tip, and
    /// makes it the tip. Every transaction has to verify against the ledger as it stands;
    /// the ledger is left as it is where one does not, or where no block can be sealed.
    #[verifier::rlimit(50)]
    pub fn mine_block(&mut self, transactions: &[Transaction]) -> (mined: Result<
        Block,
        BlockchainError,
    >)
        requires
            old(self)@.wf(),
        ensures
            final(self)@.wf(),
            match mined {
                Ok(b) => {
                    &&& all_verify(transactions_view(transactions@), old(self)@)
                    &&& old(self)@.best_height() < usize::MAX
                    &&& b@ == BlockView::candidate(
                        b@.timestamp,
                        old(self)@.tip,
                        transactions_view(transactions@),
                        (old(self)@.best_height() + 1) as usize,
                    ).sealed(b@.nonce)
                    &&& first_nonce(b@, b@.nonce)
                    &&& pow_valid(b@)
                    &&& b@.hash.len() == 64
                    &&& final(self)@ == old(self)@.extend(b@)
                    &&& old(self)@.sealed() ==> final(self)@.sealed()
                    &&& old(self)@.linear() && find_block(old(self)@.blocks, block_key(b@))
                        is None ==> final(self)@.linear()
                },
                Err(e) => {
                    &&& final(self)@ == old(self)@
                    &&& e == if !all_verify(transactions_view(transactions@), old(self)@) {
                        BlockchainError::InvalidTransaction
                    } else if old(self)@.best_height() == usize::MAX {
                        BlockchainError::StoreError
                    } else if !BlockView::candidate(
                        0,
                        old(self)@.tip,
                        transactions_view(transactions@),
                        0,
                    ).hashable() {
                        BlockchainError::CryptoError
                    } else {
                        BlockchainError::NonceExhausted
                    }
                    &&& e == BlockchainError::NonceExhausted ==> exists|timestamp: i64|
                        timestamp >= 0 && no_nonce(
                            #[trigger] BlockView::candidate(
                                timestamp,
                                old(self)@.tip,
                                transactions_view(transactions@),
                                (old(self)@.best_height() + 1) as usize,
                            ),
                        )
                },
            },
    {
        let mut i: usize = 0;
        while i < transactions.len()
            invariant
                i <= transactions@.len(),
                self@ == old(self)@,
                self@.wf(),
                forall|j: int|
                    0 <= j < i ==> (#[trigger] transactions_view(transactions@)[j]).verifies(self@),
            decreases transactions@.len() - i,
        {
            match transactions[i].verify(self) {
                Ok(true) => {},
                _ => {
                    assert(!transactions_view(transactions@)[i as int].verifies(self@));
                    return Err(BlockchainError::InvalidTransaction);
                },
            }
            i = i + 1;
        }
        let best_height = self.get_best_height();
        if best_height == usize::MAX {
            return Err(BlockchainError::StoreError);
        }
        let block = match Block::new(self.get_latest_blk_hash(), transactions, best_height + 1) {
            Ok(block) => block,
            Err(e) => {
                return Err(e);
            },
        };
        let ghost before = blocks_view(self.blocks@);
        self.blocks.push(block.clone());
        self.latest_blk_hash = block.get_hash().to_owned();
        proof {
            assert(blocks_view(self.blocks@) =~= before.push(block@));
            lemma_find_push(before, block@, block_key(block@));
            if old(self)@.linear() && find_block(old(self)@.blocks, block_key(block@)) is None {
                lemma_extend_linear(old(self)@, block@);
            }
            if old(self)@.sealed() {
                assert forall|i: int| 0 <= i < self@.blocks.len() implies pow_valid(
                    #[trigger] self@.blocks[i],
                ) by {
                    if i < before.len() {
                        assert(self@.blocks[i] == old(self)@.blocks[i]);
                    }
                }
            }
        }
        Ok(block)
    }

    /// Takes a block from elsewhere: see `LedgerView::add_block`.
    pub fn add_block(&mut self, block: &Block)
        requires
            old(self)@.wf(),
        ensures
            final(self)@ == old(self)@.add_block(block@),
            final(self)@.wf(),
            old(self)@.sealed() && pow_valid(block@) ==> final(self)@.sealed(),
    {
        if position(&self.blocks, block.get_hash().as_bytes()).is_some() {
            return ;
        }
        let tip_height = self.get_best_height();
        let ghost before = blocks_view(self.blocks@);
        self.blocks.push(block.clone());
        proof {
            assert(blocks_view(self.blocks@) =~= before.push(block@));
            lemma_find_push(before, block@, block_key(block@));
            lemma_find_push(before, block@, encode_utf8(old(self)@.tip));
            if old(self)@.sealed() && pow_valid(block@) {
                assert forall|i: int| 0 <= i < before.len() + 1 implies pow_valid(
                    #[trigger] before.push(block@)[i],
                ) by {
                    if i < before.len() {
                        assert(before.push(block@)[i] == old(self)@.blocks[i]);
                    }
                }
            }
        }
        if block.get_height() > tip_height {
            self.latest_blk_hash = block.get_hash().to_owned();
        }
    }

    /// The height of the block at the tip.
    pub fn get_best_height(&self) -> (height: usize)
        requires
            self@.wf(),
        ensures
            height == self@.best_height(),
    {
        match position(&self.blocks, self.latest_blk_hash.as_str().as_bytes()) {
            Some(i) => self.blocks[i].get_height(),
            None => 0,
        }
    }

    /// A walk over the chain, from the tip back.
    pub fn iterator(&self) -> (iterator: BlockchainIterator<'_>)
        ensures
            iterator.rest() == self@.chain(),
    {
        BlockchainIterator::new(self.get_latest_blk_hash(), &self.blocks)
    }

    /// The unspent outputs of the chain, by transaction id. The chain is walked from the
    /// tip back; an output is left out where an input of a transaction met before it, one
    /// that is no coinbase, refers to it.
    #[verifier::rlimit(50)]
    pub fn find_utxo(&self) -> (utxo: Vec<(Vec<u8>, Vec<TxOutput>)>)
        ensures
            entries_view(utxo@) == self@.find_utxo(),
    {
        let mut utxo: Vec<(Vec<u8>, Vec<TxOutput>)> = Vec::new();
        let mut stxo: Vec<(Vec<u8>, usize)> = Vec::new();
        let mut iterator = self.iterator();
        let ghost chain = self@.chain();
        let ghost mut visited: Seq<BlockView> = Seq::empty();
        proof {
            assert(chain =~= visited + iterator.rest());
            assert(entries_view(utxo@) =~= ScanState::empty().unspent);
            assert(marks_view(stxo@) =~= ScanState::empty().spent);
        }
        loop
            invariant
                chain == visited + iterator.rest(),
                chain == self@.chain(),
                (ScanState { unspent: entries_view(utxo@), spent: marks_view(stxo@) })
                    == ScanState::empty().scan(chain_transactions(visited)),
            decreases iterator.remaining(),
        {
            let block = match iterator.next() {
                Some(block) => block,
                None => {
                    assert(chain =~= visited);
                    return utxo;
                },
            };
            let ghost seen = chain_transactions(visited);
            proof {
                assert(chain =~= visited.push(block@) + iterator.rest());
                assert(visited.push(block@).drop_last() =~= visited);
            }
            let transactions = block.get_transactions();
            let ghost all = block@.transactions;
            let mut i: usize = 0;
            assert(seen + all.take(0) =~= seen);
            while i < transactions.len()
                invariant
                    i <= transactions@.len(),
                    all == transactions_view(transactions@),
                    (ScanState { unspent: entries_view(utxo@), spent: marks_view(stxo@) })
                        == ScanState::empty().scan(seen + all.take(i as int)),
                decreases transactions@.len() - i,
            {
                scan_transaction(&transactions[i], &mut utxo, &mut stxo);
                proof {
                    assert((seen + all.take(i + 1)).drop_last() =~= seen + all.take(i as int));
                    assert((seen + all.take(i + 1)).last() == transactions@[i as int]@);
                }
                i = i + 1;
            }
            proof {
                assert(all.take(i as int) =~= all);
                visited = visited.push(block@);
            }
        }
    }

    /// The transaction of the chain with the id; the one nearest the tip where there are
    /// several.
    #[verifier::rlimit(50)]
    pub fn find_transaction(&self, txid: &[u8]) -> (found: Option<Transaction>)
        ensures
            match found {
                Some(t) => self@.find_transaction(txid@) == Some(t@),
                None => self@.find_transaction(txid@) is None,
            },
    {
        let mut iterator = self.iterator();
        let ghost chain = self@.chain();
        let ghost mut visited: Seq<BlockView> = Seq::empty();
        assert(chain =~= visited + iterator.rest());
        loop
            invariant
                chain == visited + iterator.rest(),
                chain == self@.chain(),
                first_with_id(chain_transactions(visited), txid@) is None,
            decreases iterator.remaining(),
        {
            let block = match iterator.next() {
                Some(block) => block,
                None => {
                    assert(chain =~= visited);
                    return None;
                },
            };
            let ghost seen = chain_transactions(visited);
            let ghost rest = iterator.rest();
            proof {
                assert(chain =~= visited.push(block@) + rest);
                assert(visited.push(block@).drop_last() =~= visited);
                lemma_chain_transactions_add(visited.push(block@), rest);
                assert(seen + block@.transactions =~= seen + block@.transactions.take(0)
                    + block@.transactions);
                assert(seen + block@.transactions.take(0) =~= seen);
            }
            let transactions = block.get_transactions();
            let ghost all = block@.transactions;
            let mut i: usize = 0;
            while i < transactions.len()
                invariant
                    i <= transactions@.len(),
                    all == transactions_view(transactions@),
                    chain == self@.chain(),
                    chain_transactions(chain) == seen + all + chain_transactions(rest),
                    first_with_id(seen + all.take(i as int), txid@) is None,
                decreases transactions@.len() - i,
            {
                let transaction = &transactions[i];
                proof {
                    assert((seen + all.take(i + 1)).drop_last() =~= seen + all.take(i as int));
                    assert((seen + all.take(i + 1)).last() == transaction@);
                }
                if bytes_equal(txid, transaction.get_id()) {
                    proof {
                        let head = seen + all.take(i + 1);
                        let tail = all.skip(i + 1) + chain_transactions(rest);
                        assert(all.take(i + 1) + all.skip(i + 1) =~= all);
                        assert(head + tail =~= seen + all + chain_transactions(rest));
                        lemma_first_with_id_add(head, tail, txid@);
                    }
                    return Some(transaction.clone());
                }
                i = i + 1;
            }
            proof {
                assert(all.take(i as int) =~= all);
                visited = visited.push(block@);
            }
        }
    }

    /// The hashes of the blocks of the chain, as bytes, that of the tip first.
    pub fn get_block_hashes(&self) -> (hashes: Vec<Vec<u8>>)
        ensures
            hashes@.len() == self@.chain().len(),
            forall|i: int| 0 <= i < hashes@.len() ==> hashes@[i]@ == block_key(self@.chain()[i]),
    {
        let mut iterator = self.iterator();
        let mut blocks: Vec<Vec<u8>> = Vec::new();
        let ghost chain = self@.chain();
        let ghost mut visited: Seq<BlockView> = Seq::empty();
        assert(chain =~= visited + iterator.rest());
        loop
            invariant
                chain == visited + iterator.rest(),
                chain == self@.chain(),
                blocks@.len() == visited.len(),
                forall|i: int| 0 <= i < blocks@.len() ==> blocks@[i]@ == block_key(visited[i]),
            decreases iterator.remaining(),
        {
            let block = match iterator.next() {
                Some(block) => block,
                None => {
                    assert(chain =~= visited);
                    return blocks;
                },
            };
            blocks.push(block.get_hash_bytes());
            proof {
                assert(chain =~= visited.push(block@) + iterator.rest());
                visited = visited.push(block@);
            }
        }
    }

    /// The block kept under a hash, given as bytes.
    pub fn get_block(&self, block_hash: &[u8]) -> (block: Option<Block>)
        ensures
            match block {
                Some(b) => find_block(self@.blocks, block_hash@) == Some(b@),
                None => find_block(self@.blocks, block_hash@) is None,
            },
    {
        match position(&self.blocks, block_hash) {
            Some(i) => Some(self.blocks[i].clone()),
            None => None,
        }
    }
}

/// A walk over a chain: at each step the block named by the hash at hand, and then on to
/// the hash of the block before it.
pub struct BlockchainIterator<'a> {
    blocks: &'a Vec<Block>,
    current_hash: String,
    remaining: usize,
}

impl<'a> BlockchainIterator<'a> {
    /// The blocks that the walk has yet to give.
    pub closed spec fn rest(&self) -> Seq<BlockView> {
        chain_from(
            blocks_view(self.blocks@),
            encode_utf8(self.current_hash@),
            self.remaining as nat,
        )
    }

    /// The number of steps that the walk may still take.
    pub closed spec fn remaining(&self) -> nat {
        self.remaining as nat
    }

    fn new(latest_blk_hash: String, blocks: &'a Vec<Block>) -> (iterator: Self)
        ensures
            iterator.rest() == chain_from(
                blocks_view(blocks@),
                encode_utf8(latest_blk_hash@),
                blocks@.len(),
            ),
    {
        Self { current_hash: latest_blk_hash, blocks, remaining: blocks.len() }
    }

    /// The next block of the walk, or `None` at its end.
    pub fn next(&mut self) -> (block: Option<Block>)
        ensures
            match block {
                Some(b) => {
                    &&& old(self).rest() == seq![b@] + final(self).rest()
                    &&& final(self).remaining() + 1 == old(self).remaining()
                },
                None => {
                    &&& old(self).rest() == Seq::<BlockView>::empty()
                    &&& final(self).rest() == Seq::<BlockView>::empty()
                    &&& final(self).remaining() == old(self).remaining()
                },
            },
    {
        if self.remaining == 0 {
            return None;
        }
        match position(self.blocks, self.current_hash.as_str().as_bytes()) {
            Some(i) => {
                let block = self.blocks[i].clone();
                self.current_hash = block.get_prev_block_hash();
                self.remaining = self.remaining - 1;
                Some(block)
            },
            None => None,
        }
    }
}

/// Whether `block` is a first block that pays its reward to `key_hash`: no block before it,
/// height zero, one coinbase with sixteen bytes as its mark, and sealed under a hash of 64
/// characters.
pub open spec fn is_genesis(block: BlockView, key_hash: Seq<u8>) -> bool {
    &&& block.prev_hash == "None"@
    &&& block.height == 0
    &&& block.transactions.len() == 1
    &&& block.transactions[0] == TransactionView::coinbase(
        block.transactions[0].vin[0].signature,
        key_hash,
    )
    &&& block.transactions[0].vin[0].signature.len() == 16
    &&& pow_valid(block)
    &&& block.hash.len() == 64
    &&& first_nonce(block, block.nonce)
}

} // verus!
