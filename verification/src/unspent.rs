//! Unspent outputs: what a walk over the transactions of a chain, newest first, finds not
//! to have been spent.

use vstd::prelude::*;

use crate::assoc::distinct_keys;
use crate::encoding::{bytes_equal, copy_bytes};
use crate::transaction::{
    inputs_view, outputs_view, Transaction, TransactionView, TxOutput, TxOutputView,
};

verus! {

/// The place of the first entry with the key.
pub open spec fn key_index<V>(entries: Seq<(Seq<u8>, V)>, key: Seq<u8>) -> Option<int>
    decreases entries.len(),
{
    if entries.len() == 0 {
        None
    } else {
        match key_index(entries.drop_last(), key) {
            Some(i) => Some(i),
            None => if entries.last().0 == key {
                Some(entries.len() - 1)
            } else {
                None
            },
        }
    }
}

/// The entries with one more item under a key: behind the items already there, or in a new
/// entry at the end.
pub open spec fn add_item<V>(entries: Seq<(Seq<u8>, Seq<V>)>, key: Seq<u8>, item: V) -> Seq<
    (Seq<u8>, Seq<V>),
> {
    match key_index(entries, key) {
        Some(i) => entries.update(i, (key, entries[i].1.push(item))),
        None => entries.push((key, seq![item])),
    }
}

/// The outputs of a transaction, the first `count` of them, added to the entries but for
/// those that are marked as spent.
pub open spec fn add_unspent(
    entries: Seq<(Seq<u8>, Seq<TxOutputView>)>,
    transaction: TransactionView,
    spent: Seq<(Seq<u8>, usize)>,
    count: nat,
) -> Seq<(Seq<u8>, Seq<TxOutputView>)>
    decreases count,
{
    if count == 0 {
        entries
    } else {
        let index = (count - 1) as usize;
        let before = add_unspent(entries, transaction, spent, (count - 1) as nat);
        if spent.contains((transaction.id, index)) {
            before
        } else {
            add_item(before, transaction.id, transaction.vout[index as int])
        }
    }
}

/// What the first `count` inputs of a transaction spend.
pub open spec fn spent_by(transaction: TransactionView, count: nat) -> Seq<(Seq<u8>, usize)> {
    Seq::new(count, |i: int| (transaction.vin[i].txid, transaction.vin[i].vout))
}

/// Unspent outputs by transaction id, and the outputs that were seen to be spent.
pub struct ScanState {
    pub unspent: Seq<(Seq<u8>, Seq<TxOutputView>)>,
    pub spent: Seq<(Seq<u8>, usize)>,
}

impl ScanState {
    /// Nothing seen yet.
    pub open spec fn empty() -> ScanState {
        ScanState { unspent: Seq::empty(), spent: Seq::empty() }
    }

    /// The state after one more transaction: its outputs are unspent unless marked before;
    /// then, if it is no coinbase, what its inputs spend is marked.
    pub open spec fn step(self, transaction: TransactionView) -> ScanState {
        ScanState {
            unspent: add_unspent(
                self.unspent,
                transaction,
                self.spent,
                transaction.vout.len(),
            ),
            spent: if transaction.is_coinbase() {
                self.spent
            } else {
                self.spent + spent_by(transaction, transaction.vin.len())
            },
        }
    }

    /// The state after a list of transactions, taken in order.
    pub open spec fn scan(self, transactions: Seq<TransactionView>) -> ScanState
        decreases transactions.len(),
    {
        if transactions.len() == 0 {
            self
        } else {
            self.scan(transactions.drop_last()).step(transactions.last())
        }
    }
}

/// The unspent outputs of a list of transactions that stand newest first, by transaction
/// id: an output is unspent unless an input of a transaction before it in the list, one
/// that is no coinbase, refers to it.
pub open spec fn unspent_outputs(transactions: Seq<TransactionView>) -> Seq<
    (Seq<u8>, Seq<TxOutputView>),
> {
    ScanState::empty().scan(transactions).unspent
}

/// Scanning two lists, one after the other, is scanning the second from where the first
/// ended.
pub proof fn lemma_scan_add(
    state: ScanState,
    left: Seq<TransactionView>,
    right: Seq<TransactionView>,
)
    ensures
        state.scan(left + right) == state.scan(left).scan(right),
    decreases right.len(),
{
    if right.len() == 0 {
        assert(left + right =~= left);
    } else {
        lemma_scan_add(state, left, right.drop_last());
        assert((left + right).drop_last() =~= left + right.drop_last());
        assert((left + right).last() == right.last());
    }
}

/// Adding an item keeps the keys distinct.
pub proof fn lemma_add_item_distinct<V>(entries: Seq<(Seq<u8>, Seq<V>)>, key: Seq<u8>, item: V)
    requires
        distinct_keys(entries),
    ensures
        distinct_keys(add_item(entries, key, item)),
{
    lemma_key_index(entries, key);
    let next = add_item(entries, key, item);
    assert forall|a: int, b: int| 0 <= a < b < next.len() implies next[a].0 != next[b].0 by {
        match key_index(entries, key) {
            Some(i) => {
                assert(entries[a].0 != entries[b].0);
            },
            None => {
                if b < entries.len() {
                    assert(entries[a].0 != entries[b].0);
                } else {
                    assert(entries[a].0 != key);
                }
            },
        }
    }
}

/// Adding the unspent outputs of a transaction keeps the keys distinct.
pub proof fn lemma_add_unspent_distinct(
    entries: Seq<(Seq<u8>, Seq<TxOutputView>)>,
    transaction: TransactionView,
    spent: Seq<(Seq<u8>, usize)>,
    count: nat,
)
    requires
        distinct_keys(entries),
    ensures
        distinct_keys(add_unspent(entries, transaction, spent, count)),
    decreases count,
{
    if count > 0 {
        lemma_add_unspent_distinct(entries, transaction, spent, (count - 1) as nat);
        let before = add_unspent(entries, transaction, spent, (count - 1) as nat);
        let index = (count - 1) as usize;
        lemma_add_item_distinct(before, transaction.id, transaction.vout[index as int]);
    }
}

/// A walk keeps the keys distinct.
pub proof fn lemma_scan_distinct(state: ScanState, transactions: Seq<TransactionView>)
    requires
        distinct_keys(state.unspent),
    ensures
        distinct_keys(state.scan(transactions).unspent),
    decreases transactions.len(),
{
    if transactions.len() > 0 {
        lemma_scan_distinct(state, transactions.drop_last());
        let before = state.scan(transactions.drop_last());
        lemma_add_unspent_distinct(
            before.unspent,
            transactions.last(),
            before.spent,
            transactions.last().vout.len(),
        );
    }
}

/// No transaction id stands twice among the unspent outputs.
pub proof fn lemma_unspent_distinct(transactions: Seq<TransactionView>)
    ensures
        distinct_keys(unspent_outputs(transactions)),
{
    lemma_scan_distinct(ScanState::empty(), transactions);
}

/// The views of a list of entries.
pub open spec fn entries_view(entries: Seq<(Vec<u8>, Vec<TxOutput>)>) -> Seq<
    (Seq<u8>, Seq<TxOutputView>),
> {
    Seq::new(entries.len(), |i: int| (entries[i].0@, outputs_view(entries[i].1@)))
}

/// The views of a list of marks.
pub open spec fn marks_view(marks: Seq<(Vec<u8>, usize)>) -> Seq<(Seq<u8>, usize)> {
    Seq::new(marks.len(), |i: int| (marks[i].0@, marks[i].1))
}

/// The place of the first entry with the key.
pub fn key_position(entries: &Vec<(Vec<u8>, Vec<TxOutput>)>, key: &[u8]) -> (found: Option<usize>)
    ensures
        match found {
            Some(i) => key_index(entries_view(entries@), key@) == Some(i as int) && i
                < entries@.len() && entries@[i as int].0@ == key@,
            None => key_index(entries_view(entries@), key@) is None,
        },
{
    let ghost views = entries_view(entries@);
    let mut i: usize = 0;
    assert(views.take(0) =~= Seq::empty());
    while i < entries.len()
        invariant
            i <= entries@.len(),
            views == entries_view(entries@),
            key_index(views.take(i as int), key@) is None,
        decreases entries@.len() - i,
    {
        proof {
            assert(views.take(i + 1).drop_last() =~= views.take(i as int));
            assert(views.take(i + 1).last() == views[i as int]);
        }
        if bytes_equal(entries[i].0.as_slice(), key) {
            proof {
                lemma_key_index_prefix(views, i + 1, key@);
            }
            return Some(i);
        }
        i = i + 1;
    }
    assert(views.take(i as int) =~= views);
    None
}

/// What is found among the first entries is found among all of them.
pub proof fn lemma_key_index_prefix<V>(entries: Seq<(Seq<u8>, V)>, count: int, key: Seq<u8>)
    requires
        0 <= count <= entries.len(),
        key_index(entries.take(count), key) is Some,
    ensures
        key_index(entries, key) == key_index(entries.take(count), key),
    decreases entries.len(),
{
    if count == entries.len() {
        assert(entries.take(count) =~= entries);
    } else {
        assert(entries.drop_last().take(count) =~= entries.take(count));
        lemma_key_index_prefix(entries.drop_last(), count, key);
    }
}

/// Where a key is found, there it stands, and before it it does not.
pub proof fn lemma_key_index<V>(entries: Seq<(Seq<u8>, V)>, key: Seq<u8>)
    ensures
        match key_index(entries, key) {
            Some(i) => {
                &&& 0 <= i < entries.len()
                &&& entries[i].0 == key
                &&& forall|j: int| 0 <= j < i ==> (#[trigger] entries[j]).0 != key
            },
            None => forall|j: int| 0 <= j < entries.len() ==> (#[trigger] entries[j]).0 != key,
        },
    decreases entries.len(),
{
    if entries.len() > 0 {
        lemma_key_index(entries.drop_last(), key);
        match key_index(entries.drop_last(), key) {
            Some(i) => {
                assert forall|j: int| 0 <= j < i implies (#[trigger] entries[j]).0 != key by {
                    assert(entries.drop_last()[j] == entries[j]);
                }
            },
            None => {
                assert forall|j: int| 0 <= j < entries.len() - 1 implies (#[trigger] entries[j]).0
                    != key by {
                    assert(entries.drop_last()[j] == entries[j]);
                }
            },
        }
    }
}

/// Whether a mark stands in the list.
fn is_marked(spent: &Vec<(Vec<u8>, usize)>, txid: &[u8], index: usize) -> (marked: bool)
    ensures
        marked == marks_view(spent@).contains((txid@, index)),
{
    let ghost marks = marks_view(spent@);
    let mut i: usize = 0;
    while i < spent.len()
        invariant
            i <= spent@.len(),
            marks == marks_view(spent@),
            forall|j: int| 0 <= j < i ==> marks[j] != (txid@, index),
        decreases spent@.len() - i,
    {
        if spent[i].1 == index && bytes_equal(spent[i].0.as_slice(), txid) {
            assert(marks[i as int] == (txid@, index));
            return true;
        }
        i = i + 1;
    }
    false
}

/// Adds an output under a transaction id.
fn add_output(entries: &mut Vec<(Vec<u8>, Vec<TxOutput>)>, txid: &[u8], output: TxOutput)
    ensures
        entries_view(final(entries)@) == add_item(entries_view(old(entries)@), txid@, output@),
{
    let ghost before = entries_view(entries@);
    match key_position(entries, txid) {
        Some(i) => {
            let (key, mut outputs) = entries.remove(i);
            outputs.push(output);
            entries.insert(i, (key, outputs));
            assert(entries_view(entries@) =~= before.update(
                i as int,
                (txid@, before[i as int].1.push(output@)),
            )) by {
                assert forall|j: int| 0 <= j < entries@.len() implies entries_view(entries@)[j]
                    == before.update(i as int, (txid@, before[i as int].1.push(output@)))[j] by {
                    if j == i {
                        assert(outputs_view(outputs@) =~= before[i as int].1.push(output@));
                    } else if j < i {
                        assert(entries@[j] == old(entries)@[j]);
                    } else {
                        assert(entries@[j] == old(entries)@[j]);
                    }
                }
            }
        },
        None => {
            let mut outputs: Vec<TxOutput> = Vec::new();
            outputs.push(output);
            entries.push((copy_bytes(txid), outputs));
            assert(outputs_view(outputs@) =~= seq![output@]);
            assert(entries_view(entries@) =~= before.push((txid@, seq![output@])));
        },
    }
}

/// Takes one transaction into the walk: see `ScanState::step`.
pub fn scan_transaction(
    transaction: &Transaction,
    unspent: &mut Vec<(Vec<u8>, Vec<TxOutput>)>,
    spent: &mut Vec<(Vec<u8>, usize)>,
)
    ensures
        (ScanState {
            unspent: entries_view(final(unspent)@),
            spent: marks_view(final(spent)@),
        }) == (ScanState {
            unspent: entries_view(old(unspent)@),
            spent: marks_view(old(spent)@),
        }).step(transaction@),
{
    let ghost start = entries_view(unspent@);
    let ghost marks = marks_view(spent@);
    let outputs = transaction.get_vout();
    let mut idx: usize = 0;
    while idx < outputs.len()
        invariant
            idx <= outputs@.len(),
            outputs_view(outputs@) == transaction@.vout,
            marks == marks_view(spent@),
            entries_view(unspent@) == add_unspent(start, transaction@, marks, idx as nat),
        decreases outputs@.len() - idx,
    {
        if !is_marked(spent, transaction.get_id(), idx) {
            add_output(unspent, transaction.get_id(), outputs[idx].clone());
        }
        idx = idx + 1;
    }
    if transaction.is_coinbase() {
        return ;
    }
    let inputs = transaction.get_vin();
    let mut idx: usize = 0;
    assert(marks_view(spent@) =~= marks + spent_by(transaction@, 0));
    while idx < inputs.len()
        invariant
            idx <= inputs@.len(),
            inputs_view(inputs@) == transaction@.vin,
            marks_view(spent@) == marks + spent_by(transaction@, idx as nat),
        decreases inputs@.len() - idx,
    {
        let input = &inputs[idx];
        let ghost before = marks_view(spent@);
        spent.push((copy_bytes(input.get_txid()), input.get_vout()));
        proof {
            assert(inputs_view(inputs@)[idx as int] == input@);
            assert(marks_view(spent@) =~= before.push((input@.txid, input@.vout)));
            assert(marks_view(spent@) =~= marks + spent_by(transaction@, (idx + 1) as nat));
        }
        idx = idx + 1;
    }
}

} // verus!
