//! The chainstate: the unspent outputs of the chain, kept by transaction id beside the
//! ledger and brought up to date block by block.

use vstd::prelude::*;

use crate::assoc::distinct_keys;
use crate::blockchain::{Blockchain, LedgerView};
use crate::blocks::{Block, BlockView};
use crate::encoding::{bytes_equal, copy_bytes};
use crate::error::BlockchainError;
use crate::transaction::{
    clone_outputs, inputs_view, outputs_view, transactions_view, TransactionView, TxOutput,
    TxOutputView,
};
use crate::unspent::{
    add_item, entries_view, key_index, key_position, lemma_key_index, lemma_unspent_distinct,
};

verus! {

/// A list without the item at a position; the list itself where it has no such position.
pub open spec fn remove_position<V>(items: Seq<V>, position: usize) -> Seq<V> {
    if position < items.len() {
        items.remove(position as int)
    } else {
        items
    }
}

/// The entries after an output was spent: the list under the transaction id loses the item
/// at the position, and the entry goes where nothing is left of it. Nothing changes where
/// the id has no entry.
pub open spec fn spend(
    entries: Seq<(Seq<u8>, Seq<TxOutputView>)>,
    txid: Seq<u8>,
    position: usize,
) -> Seq<(Seq<u8>, Seq<TxOutputView>)> {
    match key_index(entries, txid) {
        Some(i) => {
            let left = remove_position(entries[i].1, position);
            if left.len() == 0 {
                entries.remove(i)
            } else {
                entries.update(i, (txid, left))
            }
        },
        None => entries,
    }
}

/// The entries after the first `count` inputs of a transaction were spent, in order.
pub open spec fn spend_inputs(
    entries: Seq<(Seq<u8>, Seq<TxOutputView>)>,
    transaction: TransactionView,
    count: nat,
) -> Seq<(Seq<u8>, Seq<TxOutputView>)>
    decreases count,
{
    if count == 0 {
        entries
    } else {
        let input = transaction.vin[count - 1];
        spend(spend_inputs(entries, transaction, (count - 1) as nat), input.txid, input.vout)
    }
}

/// The entries with a list of outputs under a transaction id, in the place of what stood
/// there.
pub open spec fn put(
    entries: Seq<(Seq<u8>, Seq<TxOutputView>)>,
    txid: Seq<u8>,
    outputs: Seq<TxOutputView>,
) -> Seq<(Seq<u8>, Seq<TxOutputView>)> {
    match key_index(entries, txid) {
        Some(i) => entries.update(i, (txid, outputs)),
        None => entries.push((txid, outputs)),
    }
}

/// The entries after a transaction: what its inputs spend is taken out, unless it is a
/// coinbase, and its own outputs are put under its id.
pub open spec fn apply_transaction(
    entries: Seq<(Seq<u8>, Seq<TxOutputView>)>,
    transaction: TransactionView,
) -> Seq<(Seq<u8>, Seq<TxOutputView>)> {
    let spent = if transaction.is_coinbase() {
        entries
    } else {
        spend_inputs(entries, transaction, transaction.vin.len())
    };
    put(spent, transaction.id, transaction.vout)
}

/// The entries after a list of transactions, taken in order.
pub open spec fn apply_transactions(
    entries: Seq<(Seq<u8>, Seq<TxOutputView>)>,
    transactions: Seq<TransactionView>,
) -> Seq<(Seq<u8>, Seq<TxOutputView>)>
    decreases transactions.len(),
{
    if transactions.len() == 0 {
        entries
    } else {
        apply_transaction(
            apply_transactions(entries, transactions.drop_last()),
            transactions.last(),
        )
    }
}

/// Spending an output keeps the keys distinct.
pub proof fn lemma_spend_distinct(
    entries: Seq<(Seq<u8>, Seq<TxOutputView>)>,
    txid: Seq<u8>,
    position: usize,
)
    requires
        distinct_keys(entries),
    ensures
        distinct_keys(spend(entries, txid, position)),
{
    lemma_key_index(entries, txid);
    let next = spend(entries, txid, position);
    match key_index(entries, txid) {
        Some(i) => {
            assert forall|a: int, b: int| 0 <= a < b < next.len() implies next[a].0 != next[b].0 by {
                if next.len() == entries.len() {
                    assert(entries[a].0 != entries[b].0);
                } else {
                    let a0 = if a < i { a } else { a + 1 };
                    let b0 = if b < i { b } else { b + 1 };
                    assert(entries[a0].0 != entries[b0].0);
                }
            }
        },
        None => {},
    }
}

/// Putting outputs under an id keeps the keys distinct.
pub proof fn lemma_put_distinct(
    entries: Seq<(Seq<u8>, Seq<TxOutputView>)>,
    txid: Seq<u8>,
    outputs: Seq<TxOutputView>,
)
    requires
        distinct_keys(entries),
    ensures
        distinct_keys(put(entries, txid, outputs)),
{
    lemma_key_index(entries, txid);
    let next = put(entries, txid, outputs);
    assert forall|a: int, b: int| 0 <= a < b < next.len() implies next[a].0 != next[b].0 by {
        if b < entries.len() {
            assert(entries[a].0 != entries[b].0);
        } else {
            assert(entries[a].0 != txid);
        }
    }
}

/// Spending the inputs of a transaction keeps the keys distinct.
pub proof fn lemma_spend_inputs_distinct(
    entries: Seq<(Seq<u8>, Seq<TxOutputView>)>,
    transaction: TransactionView,
    count: nat,
)
    requires
        distinct_keys(entries),
    ensures
        distinct_keys(spend_inputs(entries, transaction, count)),
    decreases count,
{
    if count > 0 {
        lemma_spend_inputs_distinct(entries, transaction, (count - 1) as nat);
        let input = transaction.vin[count - 1];
        lemma_spend_distinct(
            spend_inputs(entries, transaction, (count - 1) as nat),
            input.txid,
            input.vout,
        );
    }
}

/// Applying transactions keeps the keys distinct.
pub proof fn lemma_apply_distinct(
    entries: Seq<(Seq<u8>, Seq<TxOutputView>)>,
    transactions: Seq<TransactionView>,
)
    requires
        distinct_keys(entries),
    ensures
        distinct_keys(apply_transactions(entries, transactions)),
    decreases transactions.len(),
{
    if transactions.len() > 0 {
        lemma_apply_distinct(entries, transactions.drop_last());
        let before = apply_transactions(entries, transactions.drop_last());
        let transaction = transactions.last();
        lemma_spend_inputs_distinct(before, transaction, transaction.vin.len());
        let spent = if transaction.is_coinbase() {
            before
        } else {
            spend_inputs(before, transaction, transaction.vin.len())
        };
        lemma_put_distinct(spent, transaction.id, transaction.vout);
    }
}

/// The outputs among the first `count` of a list that are locked to a key hash.
pub open spec fn locked_among(outputs: Seq<TxOutputView>, pub_key_hash: Seq<u8>, count: nat) -> Seq<
    TxOutputView,
>
    decreases count,
{
    if count == 0 {
        Seq::empty()
    } else {
        let before = locked_among(outputs, pub_key_hash, (count - 1) as nat);
        if outputs[count - 1].is_locked_with_key(pub_key_hash) {
            before.push(outputs[count - 1])
        } else {
            before
        }
    }
}

/// The outputs of the entries that are locked to a key hash, entry by entry.
pub open spec fn locked_outputs(
    entries: Seq<(Seq<u8>, Seq<TxOutputView>)>,
    pub_key_hash: Seq<u8>,
) -> Seq<TxOutputView>
    decreases entries.len(),
{
    if entries.len() == 0 {
        Seq::empty()
    } else {
        locked_outputs(entries.drop_last(), pub_key_hash) + locked_among(
            entries.last().1,
            pub_key_hash,
            entries.last().1.len(),
        )
    }
}

/// Outputs picked to pay an amount: their sum, and their positions by transaction id.
pub struct Selection {
    pub accumulated: int,
    pub outputs: Seq<(Seq<u8>, Seq<usize>)>,
}

/// The selection after the first `count` outputs of an entry: an output is picked where it
/// is locked to the key hash and the sum so far is under the amount.
pub open spec fn select_among(
    selection: Selection,
    entry: (Seq<u8>, Seq<TxOutputView>),
    pub_key_hash: Seq<u8>,
    amount: int,
    count: nat,
) -> Selection
    decreases count,
{
    if count == 0 {
        selection
    } else {
        let before = select_among(selection, entry, pub_key_hash, amount, (count - 1) as nat);
        let output = entry.1[count - 1];
        if output.is_locked_with_key(pub_key_hash) && before.accumulated < amount {
            Selection {
                accumulated: before.accumulated + output.value,
                outputs: add_item(before.outputs, entry.0, (count - 1) as usize),
            }
        } else {
            before
        }
    }
}

/// The selection after the first `count` entries.
pub open spec fn select_spendable(
    entries: Seq<(Seq<u8>, Seq<TxOutputView>)>,
    pub_key_hash: Seq<u8>,
    amount: int,
    count: nat,
) -> Selection
    decreases count,
{
    if count == 0 {
        Selection { accumulated: 0, outputs: Seq::empty() }
    } else {
        select_among(
            select_spendable(entries, pub_key_hash, amount, (count - 1) as nat),
            entries[count - 1],
            pub_key_hash,
            amount,
            entries[count - 1].1.len(),
        )
    }
}

/// The sum of the amounts of a list of outputs.
pub open spec fn sum_values(outputs: Seq<TxOutputView>) -> int
    decreases outputs.len(),
{
    if outputs.len() == 0 {
        0
    } else {
        sum_values(outputs.drop_last()) + outputs.last().value
    }
}

/// What the entries hold for a key hash: the sum of the outputs that are locked to it.
pub open spec fn balance(entries: Seq<(Seq<u8>, Seq<TxOutputView>)>, pub_key_hash: Seq<u8>) -> int {
    sum_values(locked_outputs(entries, pub_key_hash))
}

/// No output of the entries has a negative amount.
pub open spec fn amounts_not_negative(entries: Seq<(Seq<u8>, Seq<TxOutputView>)>) -> bool {
    forall|i: int, j: int|
        0 <= i < entries.len() && 0 <= j < entries[i].1.len() ==> (#[trigger] entries[i].1[j]).value
            >= 0
}

/// The sum over two lists, one after the other.
pub proof fn lemma_sum_values_add(left: Seq<TxOutputView>, right: Seq<TxOutputView>)
    ensures
        sum_values(left + right) == sum_values(left) + sum_values(right),
    decreases right.len(),
{
    if right.len() == 0 {
        assert(left + right =~= left);
    } else {
        lemma_sum_values_add(left, right.drop_last());
        assert((left + right).drop_last() =~= left + right.drop_last());
        assert((left + right).last() == right.last());
    }
}

/// Picking from an entry goes on as long as the sum is under the amount: the sum grows by
/// what is locked to the key hash among the outputs passed, until it reaches the amount.
pub proof fn lemma_select_among(
    selection: Selection,
    entry: (Seq<u8>, Seq<TxOutputView>),
    pub_key_hash: Seq<u8>,
    amount: int,
    count: nat,
    total: int,
)
    requires
        count <= entry.1.len(),
        forall|j: int| 0 <= j < entry.1.len() ==> (#[trigger] entry.1[j]).value >= 0,
        selection.accumulated <= total,
        selection.accumulated < amount ==> selection.accumulated == total,
    ensures
        ({
            let after = select_among(selection, entry, pub_key_hash, amount, count);
            let locked = sum_values(locked_among(entry.1, pub_key_hash, count));
            &&& locked >= 0
            &&& after.accumulated <= total + locked
            &&& after.accumulated < amount ==> after.accumulated == total + locked
            &&& after.accumulated >= selection.accumulated
        }),
    decreases count,
{
    if count > 0 {
        lemma_select_among(selection, entry, pub_key_hash, amount, (count - 1) as nat, total);
        let output = entry.1[count - 1];
        let earlier = locked_among(entry.1, pub_key_hash, (count - 1) as nat);
        if output.is_locked_with_key(pub_key_hash) {
            assert(earlier.push(output).drop_last() =~= earlier);
        }
    }
}

/// What is picked never exceeds what the entries hold for the key hash, and where it stays
/// under the amount it is all that they hold: the amount is reached exactly when the
/// balance reaches it.
pub proof fn lemma_select_spendable(
    entries: Seq<(Seq<u8>, Seq<TxOutputView>)>,
    pub_key_hash: Seq<u8>,
    amount: int,
    count: nat,
)
    requires
        count <= entries.len(),
        amounts_not_negative(entries),
    ensures
        ({
            let selection = select_spendable(entries, pub_key_hash, amount, count);
            let held = balance(entries.take(count as int), pub_key_hash);
            &&& 0 <= selection.accumulated <= held
            &&& selection.accumulated < amount ==> selection.accumulated == held
            &&& selection.accumulated >= amount <==> held >= amount
        }),
    decreases count,
{
    if count > 0 {
        lemma_select_spendable(entries, pub_key_hash, amount, (count - 1) as nat);
        let before = select_spendable(entries, pub_key_hash, amount, (count - 1) as nat);
        let entry = entries[count - 1];
        let held = balance(entries.take(count - 1), pub_key_hash);
        assert forall|j: int| 0 <= j < entry.1.len() implies (#[trigger] entry.1[j]).value >= 0 by {
            assert(entries[count - 1].1[j].value >= 0);
        }
        lemma_select_among(before, entry, pub_key_hash, amount, entry.1.len(), held);
        let prefix = entries.take(count as int);
        assert(prefix.drop_last() =~= entries.take(count - 1));
        assert(prefix.last() == entry);
        lemma_sum_values_add(
            locked_outputs(entries.take(count - 1), pub_key_hash),
            locked_among(entry.1, pub_key_hash, entry.1.len()),
        );
    } else {
        assert(entries.take(0) =~= Seq::empty());
    }
}

/// The views of a list of picked positions.
pub open spec fn selection_view(selected: Seq<(Vec<u8>, Vec<usize>)>) -> Seq<(Seq<u8>, Seq<usize>)> {
    Seq::new(selected.len(), |i: int| (selected[i].0@, selected[i].1@))
}

pub struct ChainstateView {
    pub ledger: LedgerView,
    pub entries: Seq<(Seq<u8>, Seq<TxOutputView>)>,
}

impl ChainstateView {
    /// No transaction id stands twice.
    pub open spec fn wf(self) -> bool {
        distinct_keys(self.entries)
    }

    /// The chainstate is that of its ledger: what a walk over the whole chain finds unspent.
    pub open spec fn reindexed(self) -> bool {
        self.entries == self.ledger.find_utxo()
    }

    /// The chainstate built anew from its ledger.
    pub open spec fn reindex(self) -> ChainstateView {
        ChainstateView { ledger: self.ledger, entries: self.ledger.find_utxo() }
    }

    /// The chainstate brought up to date with a block.
    pub open spec fn update(self, block: BlockView) -> ChainstateView {
        ChainstateView {
            ledger: self.ledger,
            entries: apply_transactions(self.entries, block.transactions),
        }
    }
}

/// Adds a position under a transaction id.
fn add_position(selected: &mut Vec<(Vec<u8>, Vec<usize>)>, txid: &[u8], position: usize)
    ensures
        selection_view(final(selected)@) == add_item(
            selection_view(old(selected)@),
            txid@,
            position,
        ),
{
    let ghost before = selection_view(selected@);
    let mut i: usize = 0;
    assert(before.take(0) =~= Seq::empty());
    while i < selected.len()
        invariant
            i <= selected@.len(),
            before == selection_view(selected@),
            selected@ == old(selected)@,
            key_index(before.take(i as int), txid@) is None,
        decreases selected@.len() - i,
    {
        proof {
            assert(before.take(i + 1).drop_last() =~= before.take(i as int));
            assert(before.take(i + 1).last() == before[i as int]);
        }
        if bytes_equal(selected[i].0.as_slice(), txid) {
            proof {
                crate::unspent::lemma_key_index_prefix(before, i + 1, txid@);
            }
            let (key, mut positions) = selected.remove(i);
            positions.push(position);
            selected.insert(i, (key, positions));
            assert(selection_view(selected@) =~= before.update(
                i as int,
                (txid@, before[i as int].1.push(position)),
            )) by {
                assert forall|j: int| 0 <= j < selected@.len() implies selection_view(selected@)[j]
                    == before.update(i as int, (txid@, before[i as int].1.push(position)))[j] by {
                    if j != i {
                        assert(selected@[j] == old(selected)@[j]);
                    }
                }
            }
            return ;
        }
        i = i + 1;
    }
    assert(before.take(i as int) =~= before);
    let mut positions: Vec<usize> = Vec::new();
    positions.push(position);
    selected.push((copy_bytes(txid), positions));
    assert(selection_view(selected@) =~= before.push((txid@, seq![position])));
}

/// Takes the output at a position out of the list under a transaction id: see `spend`.
#[verifier::rlimit(50)]
fn spend_output(entries: &mut Vec<(Vec<u8>, Vec<TxOutput>)>, txid: &[u8], position: usize)
    ensures
        entries_view(final(entries)@) == spend(entries_view(old(entries)@), txid@, position),
{
    let ghost before = entries_view(entries@);
    match key_position(entries, txid) {
        Some(i) => {
            let (key, outs) = entries.remove(i);
            assert(entries_view(entries@) =~= before.remove(i as int));
            let mut updated_outs: Vec<TxOutput> = Vec::new();
            let mut idx: usize = 0;
            while idx < outs.len()
                invariant
                    idx <= outs@.len(),
                    outputs_view(updated_outs@) == remove_position(
                        outputs_view(outs@).take(idx as int),
                        position,
                    ),
                decreases outs@.len() - idx,
            {
                let ghost kept = outputs_view(updated_outs@);
                if idx != position {
                    updated_outs.push(outs[idx].clone());
                }
                proof {
                    let all = outputs_view(outs@);
                    if idx != position {
                        assert(outputs_view(updated_outs@) =~= kept.push(all[idx as int]));
                    }
                    assert(outputs_view(updated_outs@) =~= remove_position(
                        all.take(idx + 1),
                        position,
                    ));
                }
                idx = idx + 1;
            }
            assert(outputs_view(outs@).take(idx as int) =~= outputs_view(outs@));
            if updated_outs.len() != 0 {
                let ghost removed = entries_view(entries@);
                entries.insert(i, (key, updated_outs));
                assert(entries_view(entries@) =~= before.update(
                    i as int,
                    (txid@, outputs_view(updated_outs@)),
                )) by {
                    assert forall|j: int| 0 <= j < entries@.len() implies entries_view(entries@)[j]
                        == before.update(i as int, (txid@, outputs_view(updated_outs@)))[j] by {
                        if j < i {
                            assert(entries_view(entries@)[j] == removed[j]);
                        } else if j > i {
                            assert(entries_view(entries@)[j] == removed[j - 1]);
                        }
                    }
                }
            }
        },
        None => {},
    }
}

/// Puts a list of outputs under a transaction id: see `put`.
fn put_outputs(entries: &mut Vec<(Vec<u8>, Vec<TxOutput>)>, txid: &[u8], outputs: Vec<TxOutput>)
    ensures
        entries_view(final(entries)@) == put(
            entries_view(old(entries)@),
            txid@,
            outputs_view(outputs@),
        ),
{
    let ghost before = entries_view(entries@);
    match key_position(entries, txid) {
        Some(i) => {
            entries.set(i, (copy_bytes(txid), outputs));
            assert(entries_view(entries@) =~= before.update(
                i as int,
                (txid@, outputs_view(outputs@)),
            ));
        },
        None => {
            entries.push((copy_bytes(txid), outputs));
            assert(entries_view(entries@) =~= before.push((txid@, outputs_view(outputs@))));
        },
    }
}

/// Whether no transaction id stands twice.
fn keys_distinct(entries: &Vec<(Vec<u8>, Vec<TxOutput>)>) -> (distinct: bool)
    ensures
        distinct == distinct_keys(entries_view(entries@)),
{
    let ghost views = entries_view(entries@);
    let mut j: usize = 0;
    while j < entries.len()
        invariant
            j <= entries@.len(),
            views == entries_view(entries@),
            forall|a: int, b: int| 0 <= a < b < j ==> views[a].0 != views[b].0,
        decreases entries@.len() - j,
    {
        let mut i: usize = 0;
        while i < j
            invariant
                i <= j < entries@.len(),
                views == entries_view(entries@),
                forall|a: int| 0 <= a < i ==> views[a].0 != views[j as int].0,
            decreases j - i,
        {
            if bytes_equal(entries[i].0.as_slice(), entries[j].0.as_slice()) {
                assert(views[i as int].0 == views[j as int].0);
                return false;
            }
            i = i + 1;
        }
        j = j + 1;
    }
    true
}

/// The unspent outputs of a chain, kept beside its ledger.
pub struct UTXOSet {
    blockchain: Blockchain,
    entries: Vec<(Vec<u8>, Vec<TxOutput>)>,
}

impl View for UTXOSet {
    type V = ChainstateView;

    closed spec fn view(&self) -> ChainstateView {
        ChainstateView { ledger: self.blockchain@, entries: entries_view(self.entries@) }
    }
}

impl UTXOSet {
    /// An empty chainstate beside a ledger.
    pub fn new(blockchain: Blockchain) -> (set: Self)
        ensures
            set@ == (ChainstateView { ledger: blockchain@, entries: Seq::empty() }),
            set@.wf(),
    {
        let set = UTXOSet { blockchain, entries: Vec::new() };
        assert(set@.entries =~= Seq::empty());
        set
    }

    /// The chainstate of the entries that a store holds; refused where a transaction id
    /// stands twice.
    pub fn with_entries(blockchain: Blockchain, entries: Vec<(Vec<u8>, Vec<TxOutput>)>) -> (set:
        Result<Self, BlockchainError>)
        ensures
            match set {
                Ok(s) => s@.wf() && s@ == (ChainstateView {
                    ledger: blockchain@,
                    entries: entries_view(entries@),
                }),
                Err(e) => e == BlockchainError::StoreError && !distinct_keys(
                    entries_view(entries@),
                ),
            },
    {
        if keys_distinct(&entries) {
            Ok(UTXOSet { blockchain, entries })
        } else {
            Err(BlockchainError::StoreError)
        }
    }

    pub fn get_blockchain(&self) -> (blockchain: &Blockchain)
        ensures
            blockchain@ == self@.ledger,
    {
        &self.blockchain
    }

    /// The ledger, to work on; the entries stay as they are.
    pub fn get_blockchain_mut(&mut self) -> (blockchain: &mut Blockchain)
        ensures
            blockchain@ == old(self)@.ledger,
            final(self)@.ledger == final(blockchain)@,
            final(self)@.entries == old(self)@.entries,
    {
        &mut self.blockchain
    }

    /// The entries, in the order in which they are kept.
    pub fn get_entries(&self) -> (entries: &[(Vec<u8>, Vec<TxOutput>)])
        ensures
            entries_view(entries@) == self@.entries,
    {
        self.entries.as_slice()
    }

    /// Picks unspent outputs locked to a key hash until their sum reaches the amount, going
    /// through the entries in order; returns the sum and the positions picked, by
    /// transaction id.
    #[verifier::rlimit(50)]
    pub fn find_spendable_outputs(&self, pub_key_hash: &[u8], amount: i32) -> (found: (
        i64,
        Vec<(Vec<u8>, Vec<usize>)>,
    ))
        ensures
            ({
                let selection = select_spendable(
                    self@.entries,
                    pub_key_hash@,
                    amount as int,
                    self@.entries.len(),
                );
                &&& found.0 == selection.accumulated
                &&& selection_view(found.1@) == selection.outputs
                &&& found.0 == 0 || 0 < found.0 < amount + 0x7fff_ffff
                &&& amounts_not_negative(self@.entries)
                &&& found.0 < amount <==> balance(self@.entries, pub_key_hash@) < amount
            }),
    {
        let mut unspent_outputs: Vec<(Vec<u8>, Vec<usize>)> = Vec::new();
        let mut accumulated: i64 = 0;
        let ghost entries = self@.entries;
        let mut i: usize = 0;
        assert(selection_view(unspent_outputs@) =~= Seq::empty());
        while i < self.entries.len()
            invariant
                i <= self.entries@.len(),
                entries == entries_view(self.entries@),
                accumulated == 0 || 0 < accumulated < amount + 0x7fff_ffff,
                (Selection {
                    accumulated: accumulated as int,
                    outputs: selection_view(unspent_outputs@),
                }) == select_spendable(entries, pub_key_hash@, amount as int, i as nat),
                forall|a: int, b: int|
                    0 <= a < i && 0 <= b < entries[a].1.len() ==> (#[trigger] entries[a].1[b]).value
                        >= 0,
            decreases self.entries@.len() - i,
        {
            let outs = &self.entries[i].1;
            let ghost entry = entries[i as int];
            let ghost start = select_spendable(entries, pub_key_hash@, amount as int, i as nat);
            let mut idx: usize = 0;
            while idx < outs.len()
                invariant
                    idx <= outs@.len(),
                    i < self.entries@.len(),
                    entry == (self.entries@[i as int].0@, outputs_view(outs@)),
                    accumulated == 0 || 0 < accumulated < amount + 0x7fff_ffff,
                    (Selection {
                        accumulated: accumulated as int,
                        outputs: selection_view(unspent_outputs@),
                    }) == select_among(start, entry, pub_key_hash@, amount as int, idx as nat),
                    forall|b: int| 0 <= b < idx ==> (#[trigger] entry.1[b]).value >= 0,
                decreases outs@.len() - idx,
            {
                let out = &outs[idx];
                let value = out.get_value();
                if out.is_locked_with_key(pub_key_hash) && accumulated < amount as i64 {
                    accumulated = accumulated + value as i64;
                    add_position(&mut unspent_outputs, self.entries[i].0.as_slice(), idx);
                }
                idx = idx + 1;
            }
            i = i + 1;
        }
        proof {
            lemma_select_spendable(entries, pub_key_hash@, amount as int, entries.len());
            assert(entries.take(entries.len() as int) =~= entries);
        }
        (accumulated, unspent_outputs)
    }

    /// The unspent outputs that are locked to a key hash, entry by entry.
    pub fn find_utxo(&self, pub_key_hash: &[u8]) -> (utxos: Vec<TxOutput>)
        ensures
            outputs_view(utxos@) == locked_outputs(self@.entries, pub_key_hash@),
    {
        let mut utxos: Vec<TxOutput> = Vec::new();
        let ghost entries = self@.entries;
        let mut i: usize = 0;
        assert(entries.take(0) =~= Seq::empty());
        assert(outputs_view(utxos@) =~= Seq::empty());
        while i < self.entries.len()
            invariant
                i <= self.entries@.len(),
                entries == entries_view(self.entries@),
                outputs_view(utxos@) == locked_outputs(entries.take(i as int), pub_key_hash@),
            decreases self.entries@.len() - i,
        {
            let outs = &self.entries[i].1;
            let ghost before = outputs_view(utxos@);
            let ghost all = outputs_view(outs@);
            let mut idx: usize = 0;
            assert(before + locked_among(all, pub_key_hash@, 0) =~= before);
            while idx < outs.len()
                invariant
                    idx <= outs@.len(),
                    all == outputs_view(outs@),
                    outputs_view(utxos@) == before + locked_among(all, pub_key_hash@, idx as nat),
                decreases outs@.len() - idx,
            {
                let out = &outs[idx];
                let ghost so_far = outputs_view(utxos@);
                if out.is_locked_with_key(pub_key_hash) {
                    utxos.push(out.clone());
                    assert(outputs_view(utxos@) =~= so_far.push(out@));
                }
                assert(outputs_view(utxos@) =~= before + locked_among(
                    all,
                    pub_key_hash@,
                    (idx + 1) as nat,
                ));
                idx = idx + 1;
            }
            proof {
                assert(entries.take(i + 1).drop_last() =~= entries.take(i as int));
                assert(entries.take(i + 1).last() == entries[i as int]);
            }
            i = i + 1;
        }
        assert(entries.take(i as int) =~= entries);
        utxos
    }

    /// The number of transactions with an unspent output.
    pub fn count_transaction(&self) -> (count: usize)
        ensures
            count == self@.entries.len(),
    {
        self.entries.len()
    }

    /// Builds the chainstate anew from a walk over the whole chain.
    pub fn reindex(&mut self)
        ensures
            final(self)@ == old(self)@.reindex(),
            final(self)@.reindexed(),
            final(self)@.wf(),
    {
        self.entries = self.blockchain.find_utxo();
        proof {
            lemma_unspent_distinct(self@.ledger.transactions());
        }
    }

    /// Brings the chainstate up to date with a block that became the tip: for each of its
    /// transactions, what the inputs spend is taken out, unless it is a coinbase, and the
    /// outputs are put under its id.
    #[verifier::rlimit(50)]
    pub fn update(&mut self, block: &Block)
        ensures
            final(self)@ == old(self)@.update(block@),
            old(self)@.wf() ==> final(self)@.wf(),
    {
        proof {
            if self@.wf() {
                lemma_apply_distinct(self@.entries, block@.transactions);
            }
        }
        let transactions = block.get_transactions();
        let ghost all = block@.transactions;
        let ghost start = self@.entries;
        let mut i: usize = 0;
        assert(all.take(0) =~= Seq::empty());
        while i < transactions.len()
            invariant
                i <= transactions@.len(),
                all == transactions_view(transactions@),
                self@.ledger == old(self)@.ledger,
                self@.entries == apply_transactions(start, all.take(i as int)),
            decreases transactions@.len() - i,
        {
            let tx = &transactions[i];
            let ghost before = self@.entries;
            if !tx.is_coinbase() {
                let inputs = tx.get_vin();
                let mut idx: usize = 0;
                while idx < inputs.len()
                    invariant
                        idx <= inputs@.len(),
                        inputs_view(inputs@) == tx@.vin,
                        self@.ledger == old(self)@.ledger,
                        self@.entries == spend_inputs(before, tx@, idx as nat),
                    decreases inputs@.len() - idx,
                {
                    let vin = &inputs[idx];
                    assert(inputs_view(inputs@)[idx as int] == vin@);
                    spend_output(&mut self.entries, vin.get_txid(), vin.get_vout());
                    idx = idx + 1;
                }
            }
            put_outputs(&mut self.entries, tx.get_id(), clone_outputs(tx.get_vout()));
            proof {
                assert(all.take(i + 1).drop_last() =~= all.take(i as int));
                assert(all.take(i + 1).last() == tx@);
            }
            i = i + 1;
        }
        assert(all.take(i as int) =~= all);
    }
}

} // verus!
