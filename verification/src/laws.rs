//! What holds of every ledger and of every chainstate.

use vstd::prelude::*;
use vstd::utf8::encode_utf8;

use vstd::utf8::encode_utf8_decode_utf8;

use crate::blockchain::{
    block_key, chain_from, chain_transactions, find_block, is_genesis,
    lemma_chain_transactions_add, lemma_find_index, lemma_find_push, LedgerView,
};
use crate::helpers::{hex_digit, hex_lower};
use crate::assoc::{assoc_map, has_key};
use crate::blocks::BlockView;
use crate::consistency::{lemma_unspent_keys, lemma_update_matches_walk, spends_afresh};
use crate::proof_of_work::{pow_digest, pow_valid};
use crate::transaction::{
    entry_inputs, selected_inputs, spending, TransactionView, TxInputView, TxOutputView, INCENTIVE,
};
use crate::unspent::{
    add_item, add_unspent, key_index, lemma_unspent_distinct, unspent_outputs, ScanState,
};
use crate::utxoset::{
    amounts_not_negative, apply_transaction, apply_transactions, balance, lemma_select_spendable,
    locked_among, locked_outputs, put, remove_position, select_among, select_spendable, spend,
    spend_inputs, sum_values, ChainstateView, Selection,
};
use crate::wallets::{spec_hash_pub_key, WalletView};

verus! {

/// The tip of a well-formed ledger names a block that the ledger holds, under the hash of
/// the tip; the height of the ledger is the height of that block, and the chain starts
/// with it.
pub proof fn lemma_tip_validity(ledger: LedgerView)
    requires
        ledger.wf(),
    ensures
        find_block(ledger.blocks, encode_utf8(ledger.tip)) == Some(ledger.tip_block()),
        block_key(ledger.tip_block()) == encode_utf8(ledger.tip),
        ledger.tip_block().height == ledger.best_height(),
        ledger.blocks.contains(ledger.tip_block()),
        ledger.chain().len() >= 1,
        ledger.chain()[0] == ledger.tip_block(),
{
    lemma_find_index(ledger.blocks, encode_utf8(ledger.tip));
    lemma_walk(ledger.blocks, encode_utf8(ledger.tip), ledger.blocks.len());
}

/// A walk meets no more blocks than its bound. It starts with the block under the key
/// given; each block but the last names the next one by the hash of the block before it,
/// and the ledger holds that block; and where the walk ends before its bound, the last
/// hash names no block.
#[verifier::rlimit(50)]
pub proof fn lemma_walk(blocks: Seq<BlockView>, key: Seq<u8>, fuel: nat)
    ensures
        chain_from(blocks, key, fuel).len() <= fuel,
        chain_from(blocks, key, fuel).len() > 0 <==> fuel > 0 && find_block(blocks, key) is Some,
        chain_from(blocks, key, fuel).len() > 0 ==> find_block(blocks, key) == Some(
            chain_from(blocks, key, fuel)[0],
        ),
        forall|i: int|
            0 <= i < chain_from(blocks, key, fuel).len() ==> blocks.contains(
                #[trigger] chain_from(blocks, key, fuel)[i],
            ),
        forall|i: int|
            0 <= i < chain_from(blocks, key, fuel).len() - 1 ==> find_block(
                blocks,
                encode_utf8((#[trigger] chain_from(blocks, key, fuel)[i]).prev_hash),
            ) == Some(chain_from(blocks, key, fuel)[i + 1]),
        0 < chain_from(blocks, key, fuel).len() < fuel ==> find_block(
            blocks,
            encode_utf8(chain_from(blocks, key, fuel).last().prev_hash),
        ) is None,
    decreases fuel,
{
    let chain = chain_from(blocks, key, fuel);
    if fuel > 0 {
        lemma_find_index(blocks, key);
        match find_block(blocks, key) {
            Some(block) => {
                let next = encode_utf8(block.prev_hash);
                let rest = chain_from(blocks, next, (fuel - 1) as nat);
                lemma_walk(blocks, next, (fuel - 1) as nat);
                assert(chain == seq![block] + rest);
                assert forall|i: int| 0 <= i < chain.len() implies blocks.contains(
                    #[trigger] chain[i],
                ) by {
                    if i > 0 {
                        assert(chain[i] == rest[i - 1]);
                    }
                }
                assert forall|i: int| 0 <= i < chain.len() - 1 implies find_block(
                    blocks,
                    encode_utf8((#[trigger] chain[i]).prev_hash),
                ) == Some(chain[i + 1]) by {
                    if i > 0 {
                        assert(chain[i] == rest[i - 1]);
                        assert(chain[i + 1] == rest[i]);
                    } else {
                        assert(chain[1] == rest[0]);
                    }
                }
                if chain.len() < fuel {
                    if rest.len() > 0 {
                        assert(chain.last() == rest.last());
                    }
                }
            },
            None => {},
        }
    }
}

/// The walk from the tip of a well-formed ledger ends, after no more blocks than the
/// ledger holds; every block that it meets is held by the ledger; and the hash of the
/// block before, in each block but the last, names the block that the walk meets next.
pub proof fn lemma_chain_reachability(ledger: LedgerView)
    requires
        ledger.wf(),
    ensures
        1 <= ledger.chain().len() <= ledger.blocks.len(),
        forall|i: int|
            0 <= i < ledger.chain().len() ==> ledger.blocks.contains(#[trigger] ledger.chain()[i]),
        forall|i: int|
            0 <= i < ledger.chain().len() - 1 ==> find_block(
                ledger.blocks,
                encode_utf8((#[trigger] ledger.chain()[i]).prev_hash),
            ) == Some(ledger.chain()[i + 1]),
        ledger.chain().len() < ledger.blocks.len() ==> find_block(
            ledger.blocks,
            encode_utf8(ledger.chain().last().prev_hash),
        ) is None,
{
    lemma_walk(ledger.blocks, encode_utf8(ledger.tip), ledger.blocks.len());
}

/// A walk is not changed by a new block whose key it never asks for.
pub proof fn lemma_walk_push(blocks: Seq<BlockView>, block: BlockView, key: Seq<u8>, fuel: nat)
    requires
        key != block_key(block),
        forall|i: int|
            0 <= i < chain_from(blocks, key, fuel).len() ==> encode_utf8(
                (#[trigger] chain_from(blocks, key, fuel)[i]).prev_hash,
            ) != block_key(block),
    ensures
        chain_from(blocks.push(block), key, fuel) == chain_from(blocks, key, fuel),
    decreases fuel,
{
    lemma_find_push(blocks, block, key);
    if fuel > 0 {
        match find_block(blocks, key) {
            Some(found) => {
                let next = encode_utf8(found.prev_hash);
                let rest = chain_from(blocks, next, (fuel - 1) as nat);
                let chain = chain_from(blocks, key, fuel);
                assert(chain == seq![found] + rest);
                assert(chain[0] == found);
                assert forall|i: int| 0 <= i < rest.len() implies encode_utf8(
                    (#[trigger] rest[i]).prev_hash,
                ) != block_key(block) by {
                    assert(chain[i + 1] == rest[i]);
                }
                lemma_walk_push(blocks, block, next, (fuel - 1) as nat);
            },
            None => {},
        }
    }
}

/// A block put on the tip of a well-formed ledger comes first in the chain, before the
/// chain as it was, where its hash is new: the ledger holds no block under it, and the
/// last block of the chain does not name it as the block before.
pub proof fn lemma_extend_chain(ledger: LedgerView, block: BlockView)
    requires
        ledger.wf(),
        block.prev_hash == ledger.tip,
        find_block(ledger.blocks, block_key(block)) is None,
        encode_utf8(ledger.chain().last().prev_hash) != block_key(block),
    ensures
        ledger.extend(block).chain() == seq![block] + ledger.chain(),
        ledger.extend(block).transactions() == block.transactions + ledger.transactions(),
{
    let tip_key = encode_utf8(ledger.tip);
    let fuel = ledger.blocks.len();
    let chain = ledger.chain();
    lemma_walk(ledger.blocks, tip_key, fuel);
    lemma_find_push(ledger.blocks, block, block_key(block));
    assert forall|i: int| 0 <= i < chain.len() implies encode_utf8((#[trigger] chain[i]).prev_hash)
        != block_key(block) by {
        if i < chain.len() - 1 {
            assert(find_block(ledger.blocks, encode_utf8(chain[i].prev_hash)) is Some);
        }
    }
    lemma_walk_push(ledger.blocks, block, tip_key, fuel);
    assert(ledger.extend(block).chain() == seq![block] + chain);
    lemma_chain_transactions_add(seq![block], chain);
    assert(seq![block].drop_last() =~= Seq::<BlockView>::empty());
    assert(seq![block].last() == block);
    assert(chain_transactions(Seq::<BlockView>::empty()) =~= Seq::empty());
    assert(chain_transactions(seq![block]) =~= block.transactions);
}

/// The chain of a ledger is rooted when it ends in a block that names the block before it
/// `None`, and the ledger holds no block under that name.
pub open spec fn rooted(ledger: LedgerView) -> bool {
    &&& ledger.chain().len() > 0
    &&& ledger.chain().last().prev_hash == "None"@
    &&& find_block(ledger.blocks, encode_utf8("None"@)) is None
}

/// The hash of a sealed block is not the name `None`.
pub proof fn lemma_sealed_hash_is_no_sentinel(block: BlockView)
    requires
        pow_valid(block),
    ensures
        block.hash != "None"@,
        block_key(block) != encode_utf8("None"@),
{
    reveal_strlit("None");
    let digest = pow_digest(block, block.nonce);
    if block.hash == "None"@ {
        assert(hex_lower(digest).len() == 4);
        assert(hex_lower(digest)[0] == hex_digit(digest[0] as int / 16));
        assert("None"@[0] == 'N');
        assert(false);
    }
    encode_utf8_decode_utf8(block.hash);
    encode_utf8_decode_utf8("None"@);
}

/// A ledger begun with a first block is rooted, and its chain is that block.
pub proof fn lemma_genesis_rooted(ledger: LedgerView, key_hash: Seq<u8>)
    requires
        ledger.blocks.len() == 1,
        ledger.tip == ledger.blocks[0].hash,
        is_genesis(ledger.blocks[0], key_hash),
    ensures
        ledger.wf(),
        ledger.chain() == seq![ledger.blocks[0]],
        rooted(ledger),
{
    let genesis = ledger.blocks[0];
    lemma_sealed_hash_is_no_sentinel(genesis);
    assert(ledger.blocks =~= Seq::<BlockView>::empty().push(genesis));
    lemma_find_push(Seq::empty(), genesis, block_key(genesis));
    lemma_find_push(Seq::empty(), genesis, encode_utf8("None"@));
    let rest = chain_from(ledger.blocks, encode_utf8(genesis.prev_hash), 0);
    assert(ledger.chain() =~= seq![genesis] + rest);
    assert(ledger.chain() =~= seq![genesis]);
}

/// A rooted ledger stays rooted when a sealed block with a new hash is put on its tip.
pub proof fn lemma_extend_rooted(ledger: LedgerView, block: BlockView)
    requires
        ledger.wf(),
        rooted(ledger),
        pow_valid(block),
        block.prev_hash == ledger.tip,
        find_block(ledger.blocks, block_key(block)) is None,
    ensures
        ledger.extend(block).wf(),
        ledger.extend(block).chain() == seq![block] + ledger.chain(),
        rooted(ledger.extend(block)),
{
    lemma_sealed_hash_is_no_sentinel(block);
    lemma_extend_chain(ledger, block);
    lemma_find_push(ledger.blocks, block, block_key(block));
    lemma_find_push(ledger.blocks, block, encode_utf8("None"@));
    let chain = ledger.chain();
    assert((seq![block] + chain).last() == chain.last());
}

/// A ledger begun with a first block is linear.
pub proof fn lemma_genesis_linear(ledger: LedgerView, key_hash: Seq<u8>)
    requires
        ledger.blocks.len() == 1,
        ledger.tip == ledger.blocks[0].hash,
        is_genesis(ledger.blocks[0], key_hash),
    ensures
        ledger.linear(),
        ledger.chain() == seq![ledger.blocks[0]],
{
    lemma_genesis_rooted(ledger, key_hash);
    lemma_tip_validity(ledger);
}

/// A linear ledger stays linear when a sealed block with a new hash is put on its tip, one
/// higher than the tip; the block comes first in the chain, before the chain as it was.
pub proof fn lemma_extend_linear(ledger: LedgerView, block: BlockView)
    requires
        ledger.linear(),
        pow_valid(block),
        block.prev_hash == ledger.tip,
        block.height == ledger.best_height() + 1,
        find_block(ledger.blocks, block_key(block)) is None,
    ensures
        ledger.extend(block).linear(),
        ledger.extend(block).chain() == seq![block] + ledger.chain(),
        ledger.extend(block).best_height() == ledger.best_height() + 1,
{
    lemma_sealed_hash_is_no_sentinel(block);
    lemma_extend_chain(ledger, block);
    lemma_find_push(ledger.blocks, block, block_key(block));
    lemma_find_push(ledger.blocks, block, encode_utf8("None"@));
    let chain = ledger.chain();
    let longer = ledger.extend(block).chain();
    assert(longer.last() == chain.last());
    assert forall|i: int| 0 <= i < longer.len() implies (#[trigger] longer[i]).height
        == longer.len() - 1 - i by {
        if i > 0 {
            assert(longer[i] == chain[i - 1]);
        }
    }
}

/// The walk over a linear ledger of height `h` meets `h + 1` blocks, the block at the tip
/// first, at the heights from `h` down to zero, and no hash twice. Each block but the last
/// names a block before it that the ledger holds, and that block is met next; the last one
/// names `None`, and it is the only one that does.
pub proof fn lemma_linear_walk(ledger: LedgerView)
    requires
        ledger.linear(),
    ensures
        ledger.chain().len() == ledger.best_height() + 1,
        ledger.chain()[0] == ledger.tip_block(),
        ledger.chain()[0].hash == ledger.tip,
        forall|i: int|
            0 <= i < ledger.chain().len() ==> (#[trigger] ledger.chain()[i]).height
                == ledger.best_height() - i,
        forall|i: int, j: int|
            0 <= i < j < ledger.chain().len() ==> (#[trigger] ledger.chain()[i]).hash != (
            #[trigger] ledger.chain()[j]).hash,
        forall|i: int|
            0 <= i < ledger.chain().len() - 1 ==> {
                &&& (#[trigger] ledger.chain()[i]).prev_hash != "None"@
                &&& find_block(ledger.blocks, encode_utf8(ledger.chain()[i].prev_hash)) == Some(
                    ledger.chain()[i + 1],
                )
                &&& ledger.chain()[i + 1].hash == ledger.chain()[i].prev_hash
            },
        ledger.chain().last().prev_hash == "None"@,
        ledger.chain().last().height == 0,
        find_block(ledger.blocks, encode_utf8(ledger.chain().last().prev_hash)) is None,
{
    let chain = ledger.chain();
    let blocks = ledger.blocks;
    lemma_tip_validity(ledger);
    lemma_walk(blocks, encode_utf8(ledger.tip), blocks.len());
    encode_utf8_decode_utf8(ledger.tip);
    encode_utf8_decode_utf8(chain[0].hash);
    assert forall|i: int| 0 <= i < chain.len() - 1 implies {
        &&& (#[trigger] chain[i]).prev_hash != "None"@
        &&& find_block(blocks, encode_utf8(chain[i].prev_hash)) == Some(chain[i + 1])
        &&& chain[i + 1].hash == chain[i].prev_hash
    } by {
        lemma_find_index(blocks, encode_utf8(chain[i].prev_hash));
        encode_utf8_decode_utf8(chain[i].prev_hash);
        encode_utf8_decode_utf8(chain[i + 1].hash);
    }
    assert forall|i: int| 0 <= i < chain.len() implies find_block(
        blocks,
        block_key(#[trigger] chain[i]),
    ) == Some(chain[i]) by {
        if i > 0 {
            assert(chain[i - 1].prev_hash == chain[i].hash);
        }
    }
    assert forall|i: int, j: int| 0 <= i < j < chain.len() implies (#[trigger] chain[i]).hash != (
    #[trigger] chain[j]).hash by {
        if chain[i].hash == chain[j].hash {
            assert(find_block(blocks, block_key(chain[i])) == Some(chain[i]));
            assert(find_block(blocks, block_key(chain[j])) == Some(chain[j]));
            assert(chain[i].height == chain[j].height);
        }
    }
}

/// Sealed blocks stay sealed: a ledger of sealed blocks that takes a sealed block, on its
/// tip or from elsewhere, is a ledger of sealed blocks.
pub proof fn lemma_sealed_kept(ledger: LedgerView, block: BlockView)
    requires
        ledger.sealed(),
        pow_valid(block),
    ensures
        ledger.extend(block).sealed(),
        ledger.add_block(block).sealed(),
{
    let extended = ledger.extend(block);
    assert forall|i: int| 0 <= i < extended.blocks.len() implies pow_valid(
        #[trigger] extended.blocks[i],
    ) by {
        if i < ledger.blocks.len() {
            assert(extended.blocks[i] == ledger.blocks[i]);
        }
    }
    let added = ledger.add_block(block);
    assert forall|i: int| 0 <= i < added.blocks.len() implies pow_valid(
        #[trigger] added.blocks[i],
    ) by {
        if i < ledger.blocks.len() {
            assert(added.blocks[i] == ledger.blocks[i]);
        }
    }
}

/// A block from elsewhere becomes the tip exactly when the ledger did not know its hash
/// and it is higher than the tip; a block of the height of the tip leaves the tip where it
/// was.
pub proof fn lemma_fork_choice(ledger: LedgerView, block: BlockView)
    requires
        ledger.wf(),
    ensures
        ledger.add_block(block).wf(),
        ledger.add_block(block).tip == if find_block(ledger.blocks, block_key(block)) is None
            && block.height > ledger.best_height() {
            block.hash
        } else {
            ledger.tip
        },
        find_block(ledger.add_block(block).blocks, block_key(block)) is Some,
{
    lemma_find_push(ledger.blocks, block, block_key(block));
    lemma_find_push(ledger.blocks, block, encode_utf8(ledger.tip));
}

/// After a reindex the unspent outputs that the chainstate lists for a key hash are, as a
/// multiset, the outputs locked to that key hash which a walk over the whole chain finds
/// unspent.
pub proof fn lemma_chainstate_equivalence(chainstate: ChainstateView, pub_key_hash: Seq<u8>)
    requires
        chainstate.reindexed(),
    ensures
        locked_outputs(chainstate.entries, pub_key_hash).to_multiset() == locked_outputs(
            unspent_outputs(chainstate.ledger.transactions()),
            pub_key_hash,
        ).to_multiset(),
        locked_outputs(chainstate.entries, pub_key_hash) == locked_outputs(
            chainstate.ledger.find_utxo(),
            pub_key_hash,
        ),
{
}

/// After a reindex every id that the chainstate lists is the id of a transaction of the
/// chain, and no id is listed twice.
pub proof fn lemma_chainstate_keys(chainstate: ChainstateView, txid: Seq<u8>)
    requires
        chainstate.reindexed(),
    ensures
        chainstate.wf(),
        has_key(chainstate.entries, txid) ==> exists|k: int|
            0 <= k < chainstate.ledger.transactions().len()
                && (#[trigger] chainstate.ledger.transactions()[k]).id == txid,
{
    lemma_unspent_distinct(chainstate.ledger.transactions());
    if has_key(chainstate.entries, txid) {
        lemma_unspent_keys(chainstate.ledger.transactions(), txid);
    }
}

/// The outputs picked to pay an amount fall short of it exactly when the chainstate holds
/// less than the amount for the key hash; and then all that it holds was picked.
pub proof fn lemma_insufficient_funds(
    chainstate: ChainstateView,
    pub_key_hash: Seq<u8>,
    amount: int,
)
    requires
        amounts_not_negative(chainstate.entries),
    ensures
        ({
            let selection = select_spendable(
                chainstate.entries,
                pub_key_hash,
                amount,
                chainstate.entries.len(),
            );
            let held = balance(chainstate.entries, pub_key_hash);
            &&& selection.accumulated < amount <==> held < amount
            &&& selection.accumulated < amount ==> selection.accumulated == held
            &&& selection.accumulated <= held
        }),
{
    lemma_select_spendable(chainstate.entries, pub_key_hash, amount, chainstate.entries.len());
    assert(chainstate.entries.take(chainstate.entries.len() as int) =~= chainstate.entries);
}

/// A reindex of a chainstate that was reindexed changes nothing.
pub proof fn lemma_reindex_idempotent(chainstate: ChainstateView)
    ensures
        chainstate.reindex().reindexed(),
        chainstate.reindex().reindex() == chainstate.reindex(),
{
}

/// Incremental is batch, for a block that spends afresh: where the chainstate is that of
/// the ledger and a new block is put on the tip, to bring the chainstate up to date with
/// the block gives, id by id, the chainstate that a reindex over the longer ledger builds.
/// The hash of the block has to be new to the ledger, and its transactions have to spend
/// afresh (see `spends_afresh`): it may spend several outputs of one transaction, from the
/// later to the earlier; a block that spends an output which stands behind a spent output
/// of the same transaction is outside this law.
pub proof fn lemma_incremental_is_batch(chainstate: ChainstateView, block: BlockView)
    requires
        chainstate.reindexed(),
        chainstate.ledger.wf(),
        block.prev_hash == chainstate.ledger.tip,
        find_block(chainstate.ledger.blocks, block_key(block)) is None,
        encode_utf8(chainstate.ledger.chain().last().prev_hash) != block_key(block),
        spends_afresh(chainstate.ledger.transactions(), block.transactions),
    ensures
        assoc_map(chainstate.update(block).entries) == assoc_map(
            (ChainstateView {
                ledger: chainstate.ledger.extend(block),
                entries: chainstate.entries,
            }).reindex().entries,
        ),
{
    lemma_extend_chain(chainstate.ledger, block);
    lemma_update_matches_walk(chainstate.ledger.transactions(), block.transactions);
}

/// A walk over one transaction with one output finds that output unspent.
pub proof fn lemma_unspent_of_one(transaction: TransactionView)
    requires
        transaction.vout.len() == 1,
    ensures
        unspent_outputs(seq![transaction]) == seq![(transaction.id, seq![transaction.vout[0]])],
{
    let list = seq![transaction];
    let none = ScanState::empty();
    assert(list.drop_last() =~= Seq::<TransactionView>::empty());
    assert(list.last() == transaction);
    assert(none.scan(list.drop_last()) == none);
    assert(none.scan(list) == none.step(transaction));
    let before = add_unspent(none.unspent, transaction, none.spent, 0);
    assert(before == none.unspent);
    assert(!none.spent.contains((transaction.id, 0usize)));
    assert(key_index(none.unspent, transaction.id) is None);
    assert(add_item(before, transaction.id, transaction.vout[0]) =~= seq![
        (transaction.id, seq![transaction.vout[0]]),
    ]);
    assert(add_unspent(none.unspent, transaction, none.spent, 1) == add_item(
        before,
        transaction.id,
        transaction.vout[0],
    ));
}

/// Where the chainstate holds one output, locked to a key hash, an amount above zero is
/// paid from that output.
pub proof fn lemma_select_the_one(
    txid: Seq<u8>,
    output: TxOutputView,
    amount: int,
)
    requires
        amount > 0,
    ensures
        select_spendable(seq![(txid, seq![output])], output.pub_key_hash, amount, 1) == (Selection {
            accumulated: output.value as int,
            outputs: seq![(txid, seq![0usize])],
        }),
{
    let entries = seq![(txid, seq![output])];
    let start = select_spendable(entries, output.pub_key_hash, amount, 0);
    assert(start == (Selection { accumulated: 0, outputs: Seq::empty() }));
    let entry = entries[0];
    assert(select_among(start, entry, output.pub_key_hash, amount, 0) == start);
    assert(key_index(start.outputs, txid) is None);
    assert(add_item(start.outputs, txid, 0usize) =~= seq![(txid, seq![0usize])]);
    assert(entry.1[0] == output);
    assert(select_among(start, entry, output.pub_key_hash, amount, 1) == (Selection {
        accumulated: output.value as int,
        outputs: seq![(txid, seq![0usize])],
    }));
}

/// Mine and spend. The chainstate is that of a ledger whose one transaction is a coinbase
/// to the key hash of a wallet. A transfer of an amount, above zero and under the reward,
/// from that wallet to another key hash is sealed into a block together with a new
/// coinbase to the wallet. After the chainstate was brought up to date with the block, it
/// holds for the receiver one output, of the amount, and for the sender two: the change
/// and the new reward. The first reward is no longer held.
pub proof fn lemma_mine_and_spend(
    chainstate: ChainstateView,
    wallet: WalletView,
    first: TransactionView,
    transfer: TransactionView,
    reward: TransactionView,
    block: BlockView,
    amount: i32,
    to: Seq<u8>,
)
    requires
        wallet.valid(),
        to != spec_hash_pub_key(wallet.pub_key),
        0 < amount < INCENTIVE,
        chainstate.reindexed(),
        chainstate.ledger.transactions() == seq![first],
        first.vout == seq![
            TxOutputView { value: INCENTIVE, pub_key_hash: spec_hash_pub_key(wallet.pub_key) },
        ],
        transfer.same_but_signatures(
            spending(chainstate, wallet, amount, to, spec_hash_pub_key(wallet.pub_key)),
        ),
        reward.is_coinbase(),
        reward.vout == seq![
            TxOutputView { value: INCENTIVE, pub_key_hash: spec_hash_pub_key(wallet.pub_key) },
        ],
        reward.id != transfer.id,
        block.transactions == seq![transfer, reward],
    ensures
        ({
            let from = spec_hash_pub_key(wallet.pub_key);
            let after = chainstate.update(block).entries;
            let paid = TxOutputView { value: amount, pub_key_hash: to };
            let change = TxOutputView { value: (INCENTIVE - amount) as i32, pub_key_hash: from };
            let rewarded = TxOutputView { value: INCENTIVE, pub_key_hash: from };
            &&& after == seq![(transfer.id, seq![paid, change]), (reward.id, seq![rewarded])]
            &&& locked_outputs(after, to) == seq![paid]
            &&& locked_outputs(after, from) == seq![change, rewarded]
            &&& balance(after, to) == amount
            &&& balance(after, from) == 2 * INCENTIVE - amount
        }),
{
    let from = spec_hash_pub_key(wallet.pub_key);
    let paid = TxOutputView { value: amount, pub_key_hash: to };
    let change = TxOutputView { value: (INCENTIVE - amount) as i32, pub_key_hash: from };
    let rewarded = TxOutputView { value: INCENTIVE, pub_key_hash: from };
    let held = chainstate.entries;
    let unsigned = spending(chainstate, wallet, amount, to, from);
    // what the chainstate holds, and what is picked from it
    assert(first.vout[0] == rewarded);
    lemma_unspent_of_one(first);
    assert(held == seq![(first.id, seq![rewarded])]);
    lemma_select_the_one(first.id, rewarded, amount as int);
    let picked = seq![(first.id, seq![0usize])];
    assert(select_spendable(held, from, amount as int, 1).outputs == picked);
    assert(picked.drop_last() =~= Seq::<(Seq<u8>, Seq<usize>)>::empty());
    assert(selected_inputs(picked.drop_last(), wallet.pub_key) =~= Seq::<TxInputView>::empty());
    let spent = TxInputView { pub_key: wallet.pub_key, ..TxInputView::unsigned(first.id, 0) };
    assert(entry_inputs(picked.last(), wallet.pub_key, 1) =~= seq![spent]);
    assert(unsigned.vin =~= seq![spent]);
    assert(unsigned.vout =~= seq![paid, change]);
    // the transfer
    assert(transfer.vin[0] == (TxInputView {
        signature: transfer.vin[0].signature,
        ..unsigned.vin[0]
    }));
    assert(transfer.vout == seq![paid, change]);
    assert(!transfer.is_coinbase());
    assert(spend_inputs(held, transfer, 0) == held);
    assert(key_index(held.drop_last(), first.id) is None);
    assert(key_index(held, first.id) == Some(0int));
    assert(remove_position(held[0].1, 0).len() == 0);
    assert(spend(held, first.id, 0) =~= Seq::<(Seq<u8>, Seq<TxOutputView>)>::empty());
    assert(spend_inputs(held, transfer, 1) == spend(held, transfer.vin[0].txid, transfer.vin[0].vout));
    let emptied = spend_inputs(held, transfer, 1);
    assert(key_index(emptied, transfer.id) is None);
    let one = seq![(transfer.id, seq![paid, change])];
    assert(put(emptied, transfer.id, transfer.vout) =~= one);
    assert(apply_transaction(held, transfer) == one);
    // the coinbase
    assert(one.drop_last() =~= Seq::<(Seq<u8>, Seq<TxOutputView>)>::empty());
    assert(key_index(one.drop_last(), reward.id) is None);
    assert(key_index(one, reward.id) is None);
    let two = seq![(transfer.id, seq![paid, change]), (reward.id, seq![rewarded])];
    assert(put(one, reward.id, reward.vout) =~= two);
    assert(apply_transaction(one, reward) == two);
    // the block
    let list = block.transactions;
    assert(list.drop_last() =~= seq![transfer]);
    assert(seq![transfer].drop_last() =~= Seq::<TransactionView>::empty());
    assert(apply_transactions(held, seq![transfer].drop_last()) == held);
    assert(apply_transactions(held, seq![transfer]) == one);
    assert(apply_transactions(held, list) == two);
    // what is held for each of the two
    lemma_locked_of_two(two, paid, change, rewarded, to, from);
}

/// What two entries, the first with a payment and its change, the second with a reward,
/// hold for the receiver and for the sender.
proof fn lemma_locked_of_two(
    entries: Seq<(Seq<u8>, Seq<TxOutputView>)>,
    paid: TxOutputView,
    change: TxOutputView,
    rewarded: TxOutputView,
    to: Seq<u8>,
    from: Seq<u8>,
)
    requires
        entries.len() == 2,
        entries[0].1 == seq![paid, change],
        entries[1].1 == seq![rewarded],
        paid.pub_key_hash == to,
        change.pub_key_hash == from,
        rewarded.pub_key_hash == from,
        to != from,
    ensures
        locked_outputs(entries, to) == seq![paid],
        locked_outputs(entries, from) == seq![change, rewarded],
        balance(entries, to) == paid.value,
        balance(entries, from) == change.value + rewarded.value,
{
    let first = entries.drop_last();
    let none = first.drop_last();
    assert(none.len() == 0);
    assert(first.last() == entries[0]);
    assert(entries.last() == entries[1]);
    let pair = seq![paid, change];
    let single = seq![rewarded];
    assert(locked_among(pair, to, 0) =~= Seq::<TxOutputView>::empty());
    assert(locked_among(pair, to, 1) =~= seq![paid]);
    assert(locked_among(pair, to, 2) =~= seq![paid]);
    assert(locked_among(pair, from, 0) =~= Seq::<TxOutputView>::empty());
    assert(locked_among(pair, from, 1) =~= Seq::<TxOutputView>::empty());
    assert(locked_among(pair, from, 2) =~= seq![change]);
    assert(locked_among(single, to, 0) =~= Seq::<TxOutputView>::empty());
    assert(locked_among(single, to, 1) =~= Seq::<TxOutputView>::empty());
    assert(locked_among(single, from, 0) =~= Seq::<TxOutputView>::empty());
    assert(locked_among(single, from, 1) =~= seq![rewarded]);
    assert(locked_outputs(none, to) =~= Seq::<TxOutputView>::empty());
    assert(locked_outputs(none, from) =~= Seq::<TxOutputView>::empty());
    assert(locked_outputs(first, to) =~= seq![paid]);
    assert(locked_outputs(first, from) =~= seq![change]);
    assert(locked_outputs(entries, to) =~= seq![paid]);
    assert(locked_outputs(entries, from) =~= seq![change, rewarded]);
    assert(seq![paid].drop_last() =~= Seq::<TxOutputView>::empty());
    assert(sum_values(seq![paid].drop_last()) == 0);
    assert(sum_values(seq![paid]) == paid.value);
    assert(seq![change, rewarded].drop_last() =~= seq![change]);
    assert(seq![change].drop_last() =~= Seq::<TxOutputView>::empty());
    assert(sum_values(seq![change].drop_last()) == 0);
    assert(sum_values(seq![change]) == change.value);
    assert(sum_values(seq![change, rewarded]) == change.value + rewarded.value);
}

} // verus!
