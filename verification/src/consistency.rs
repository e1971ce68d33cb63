//! The chainstate that is brought up to date block by block against the chainstate that a
//! walk over the whole chain builds.

use vstd::prelude::*;

use crate::assoc::{
    assoc_map, distinct_keys, has_key, lemma_assoc_dom, lemma_assoc_index, lemma_assoc_push,
    lemma_assoc_remove, lemma_assoc_update,
};
use crate::transaction::{TransactionView, TxOutputView};
use crate::unspent::{
    add_item, add_unspent, key_index, lemma_key_index, lemma_unspent_distinct, spent_by,
    unspent_outputs, ScanState,
};
use crate::utxoset::{
    apply_transactions, lemma_apply_distinct, lemma_spend_inputs_distinct, put, remove_position,
    spend, spend_inputs,
};

verus! {

/// No two transactions of the list have one id.
pub open spec fn distinct_ids(transactions: Seq<TransactionView>) -> bool {
    forall|i: int, j: int|
        0 <= i < j < transactions.len() ==> transactions[i].id != transactions[j].id
}

/// No mark of the list refers to the transaction id.
pub open spec fn unmarked(marks: Seq<(Seq<u8>, usize)>, txid: Seq<u8>) -> bool {
    forall|a: int| 0 <= a < marks.len() ==> (#[trigger] marks[a]).0 != txid
}

/// What the transactions of a list spend: the inputs of those that are no coinbase, in
/// order.
pub open spec fn marks_of(transactions: Seq<TransactionView>) -> Seq<(Seq<u8>, usize)> {
    ScanState::empty().scan(transactions).spent
}

/// The outputs among the first `count` of a transaction that are not marked.
pub open spec fn kept(transaction: TransactionView, spent: Seq<(Seq<u8>, usize)>, count: nat) -> Seq<
    TxOutputView,
>
    decreases count,
{
    if count == 0 {
        Seq::empty()
    } else {
        let index = (count - 1) as usize;
        let before = kept(transaction, spent, (count - 1) as nat);
        if spent.contains((transaction.id, index)) {
            before
        } else {
            before.push(transaction.vout[index as int])
        }
    }
}

/// The outputs of transaction `k` of a list that a walk over the list finds unspent.
pub open spec fn unspent_of(transactions: Seq<TransactionView>, k: int) -> Seq<TxOutputView> {
    kept(transactions[k], marks_of(transactions.take(k)), transactions[k].vout.len())
}

/// Under a new key, the unspent outputs of a transaction make one entry, or none where all
/// are spent.
pub proof fn lemma_add_kept(
    entries: Seq<(Seq<u8>, Seq<TxOutputView>)>,
    transaction: TransactionView,
    spent: Seq<(Seq<u8>, usize)>,
    count: nat,
)
    requires
        key_index(entries, transaction.id) is None,
    ensures
        add_unspent(entries, transaction, spent, count) == if kept(transaction, spent, count).len()
            == 0 {
            entries
        } else {
            entries.push((transaction.id, kept(transaction, spent, count)))
        },
    decreases count,
{
    if count > 0 {
        let index = (count - 1) as usize;
        let id = transaction.id;
        let output = transaction.vout[index as int];
        lemma_add_kept(entries, transaction, spent, (count - 1) as nat);
        let before = add_unspent(entries, transaction, spent, (count - 1) as nat);
        let earlier = kept(transaction, spent, (count - 1) as nat);
        if !spent.contains((id, index)) {
            if earlier.len() == 0 {
                assert(earlier.push(output) =~= seq![output]);
            } else {
                assert(before.drop_last() =~= entries);
                assert(key_index(before, id) == Some(entries.len() as int));
                assert(add_item(before, id, output) =~= entries.push((id, earlier.push(output))));
            }
        }
    }
}

/// Marks that do not refer to a transaction do not change what is kept of it.
pub proof fn lemma_kept_unmarked(
    transaction: TransactionView,
    first: Seq<(Seq<u8>, usize)>,
    second: Seq<(Seq<u8>, usize)>,
    count: nat,
)
    requires
        unmarked(first, transaction.id),
    ensures
        kept(transaction, first + second, count) == kept(transaction, second, count),
    decreases count,
{
    if count > 0 {
        lemma_kept_unmarked(transaction, first, second, (count - 1) as nat);
        let mark = (transaction.id, (count - 1) as usize);
        if (first + second).contains(mark) {
            let a = choose|a: int| 0 <= a < (first + second).len() && (first + second)[a] == mark;
            if a < first.len() {
                assert(first[a].0 == transaction.id);
            } else {
                assert(second[a - first.len()] == mark);
            }
        }
        if second.contains(mark) {
            let a = choose|a: int| 0 <= a < second.len() && second[a] == mark;
            assert((first + second)[a + first.len()] == mark);
        }
    }
}

/// Of a transaction to which no mark refers, every output is kept.
pub proof fn lemma_kept_all(
    transaction: TransactionView,
    spent: Seq<(Seq<u8>, usize)>,
    count: nat,
)
    requires
        unmarked(spent, transaction.id),
        count <= transaction.vout.len() <= usize::MAX,
    ensures
        kept(transaction, spent, count) == transaction.vout.take(count as int),
    decreases count,
{
    if count > 0 {
        lemma_kept_all(transaction, spent, (count - 1) as nat);
        let mark = (transaction.id, (count - 1) as usize);
        if spent.contains(mark) {
            let a = choose|a: int| 0 <= a < spent.len() && spent[a] == mark;
            assert(spent[a].0 == transaction.id);
        }
        assert(transaction.vout.take(count as int) =~= transaction.vout.take(count - 1).push(
            transaction.vout[count - 1],
        ));
    } else {
        assert(transaction.vout.take(0) =~= Seq::empty());
    }
}

/// One more mark, at a position before every other mark on the transaction, takes the
/// output at that position out of what is kept.
pub proof fn lemma_kept_without(
    transaction: TransactionView,
    first: Seq<(Seq<u8>, usize)>,
    second: Seq<(Seq<u8>, usize)>,
    position: usize,
    count: nat,
)
    requires
        first.contains((transaction.id, position)),
        forall|a: int|
            0 <= a < first.len() && (#[trigger] first[a]).0 == transaction.id ==> first[a].1
                == position,
        forall|c: int|
            0 <= c < second.len() && (#[trigger] second[c]).0 == transaction.id ==> second[c].1
                > position,
        count <= transaction.vout.len() <= usize::MAX,
    ensures
        kept(transaction, first + second, count) == remove_position(
            kept(transaction, second, count),
            position,
        ),
        count <= position ==> kept(transaction, second, count) == transaction.vout.take(
            count as int,
        ),
        count > position ==> kept(transaction, second, count).len() > position,
    decreases count,
{
    let all = transaction.vout;
    let both = first + second;
    if count > 0 {
        lemma_kept_without(transaction, first, second, position, (count - 1) as nat);
        let index = (count - 1) as usize;
        let mark = (transaction.id, index);
        let output = all[index as int];
        let earlier = kept(transaction, second, (count - 1) as nat);
        if second.contains(mark) {
            let c = choose|c: int| 0 <= c < second.len() && second[c] == mark;
            assert(second[c].0 == transaction.id);
            assert(both[first.len() + c] == mark);
            assert(index > position);
        }
        if both.contains(mark) && !second.contains(mark) {
            let a = choose|a: int| 0 <= a < both.len() && both[a] == mark;
            if a < first.len() {
                assert(first[a].0 == transaction.id);
            } else {
                assert(second[a - first.len()] == mark);
            }
            assert(index == position);
        }
        if index == position {
            let a = choose|a: int| 0 <= a < first.len() && first[a] == mark;
            assert(both[a] == mark);
            assert(earlier.push(output).remove(position as int) =~= earlier);
        } else if index < position {
            assert(all.take(count as int) =~= all.take(count - 1).push(output));
        } else if !second.contains(mark) {
            assert(earlier.remove(position as int).push(output) =~= earlier.push(output).remove(
                position as int,
            ));
        }
    } else {
        assert(all.take(0) =~= Seq::empty());
    }
}

/// A walk adds what its transactions spend to what was marked before.
pub proof fn lemma_scan_marks(state: ScanState, transactions: Seq<TransactionView>)
    ensures
        state.scan(transactions).spent == state.spent + marks_of(transactions),
    decreases transactions.len(),
{
    if transactions.len() > 0 {
        lemma_scan_marks(state, transactions.drop_last());
        let transaction = transactions.last();
        let before = marks_of(transactions.drop_last());
        if !transaction.is_coinbase() {
            let added = spent_by(transaction, transaction.vin.len());
            assert(state.spent + (before + added) =~= (state.spent + before) + added);
        }
    } else {
        assert(state.spent + marks_of(transactions) =~= state.spent);
    }
}

/// The keys of the unspent outputs are ids of the transactions walked over.
pub proof fn lemma_unspent_keys(transactions: Seq<TransactionView>, txid: Seq<u8>)
    requires
        has_key(unspent_outputs(transactions), txid),
    ensures
        exists|k: int| 0 <= k < transactions.len() && (#[trigger] transactions[k]).id == txid,
    decreases transactions.len(),
{
    if transactions.len() > 0 {
        let rest = transactions.drop_last();
        let transaction = transactions.last();
        let before = ScanState::empty().scan(rest);
        lemma_add_keys(
            before.unspent,
            transaction,
            before.spent,
            transaction.vout.len(),
            txid,
        );
        if txid != transaction.id {
            lemma_unspent_keys(rest, txid);
            let k = choose|k: int| 0 <= k < rest.len() && (#[trigger] rest[k]).id == txid;
            assert(transactions[k].id == txid);
        } else {
            assert(transactions[transactions.len() - 1].id == txid);
        }
    } else {
        let entries = unspent_outputs(transactions);
        assert(entries.len() == 0);
    }
}

/// Adding the outputs of a transaction adds no key but its id.
pub proof fn lemma_add_keys(
    entries: Seq<(Seq<u8>, Seq<TxOutputView>)>,
    transaction: TransactionView,
    spent: Seq<(Seq<u8>, usize)>,
    count: nat,
    txid: Seq<u8>,
)
    requires
        has_key(add_unspent(entries, transaction, spent, count), txid),
    ensures
        txid == transaction.id || has_key(entries, txid),
    decreases count,
{
    if count > 0 {
        let before = add_unspent(entries, transaction, spent, (count - 1) as nat);
        let after = add_unspent(entries, transaction, spent, count);
        if txid != transaction.id {
            let i = choose|i: int| 0 <= i < after.len() && #[trigger] after[i].0 == txid;
            lemma_key_index(before, transaction.id);
            if after != before {
                assert(i < before.len());
                assert(before[i].0 == txid);
            } else {
                assert(before[i].0 == txid);
            }
            assert(has_key(before, txid));
            lemma_add_keys(entries, transaction, spent, (count - 1) as nat, txid);
        }
    }
}

/// Among transactions with distinct ids, the unspent outputs list under the id of a
/// transaction what the walk found unspent of it, and do not list the id where it found
/// nothing.
#[verifier::rlimit(50)]
pub proof fn lemma_unspent_at(transactions: Seq<TransactionView>, k: int)
    requires
        distinct_ids(transactions),
        0 <= k < transactions.len(),
    ensures
        assoc_map(unspent_outputs(transactions)).dom().contains(transactions[k].id) == (
        unspent_of(transactions, k).len() > 0),
        unspent_of(transactions, k).len() > 0 ==> assoc_map(unspent_outputs(transactions))[transactions[k].id]
            == unspent_of(transactions, k),
    decreases transactions.len(),
{
    let rest = transactions.drop_last();
    let transaction = transactions.last();
    let before = ScanState::empty().scan(rest);
    let entries = before.unspent;
    let found = kept(transaction, before.spent, transaction.vout.len());
    assert(key_index(entries, transaction.id) is None) by {
        lemma_key_index(entries, transaction.id);
        if key_index(entries, transaction.id) is Some {
            let i = key_index(entries, transaction.id)->0;
            assert(entries[i].0 == transaction.id);
            assert(has_key(entries, transaction.id));
            lemma_unspent_keys(rest, transaction.id);
            let j = choose|j: int| 0 <= j < rest.len() && (#[trigger] rest[j]).id == transaction.id;
            assert(transactions[j].id == transactions[transactions.len() - 1].id);
        }
    }
    lemma_add_kept(entries, transaction, before.spent, transaction.vout.len());
    lemma_assoc_dom(entries, transaction.id);
    lemma_key_index(entries, transaction.id);
    assert(!has_key(entries, transaction.id)) by {
        if has_key(entries, transaction.id) {
            let i = choose|i: int| 0 <= i < entries.len() && #[trigger] entries[i].0
                == transaction.id;
            assert(entries[i].0 != transaction.id);
        }
    }
    if found.len() > 0 {
        lemma_assoc_push(entries, transaction.id, found);
    }
    if k == transactions.len() - 1 {
        assert(transactions.take(k) =~= rest);
    } else {
        assert(distinct_ids(rest)) by {
            assert forall|i: int, j: int| 0 <= i < j < rest.len() implies rest[i].id
                != rest[j].id by {
                assert(transactions[i].id != transactions[j].id);
            }
        }
        lemma_unspent_at(rest, k);
        assert(rest.take(k) =~= transactions.take(k));
        assert(transactions[k].id != transactions[transactions.len() - 1].id);
    }
}

/// A map after an output was spent: see `spend`.
pub open spec fn spend_map(
    unspent: Map<Seq<u8>, Seq<TxOutputView>>,
    txid: Seq<u8>,
    position: usize,
) -> Map<Seq<u8>, Seq<TxOutputView>> {
    if unspent.dom().contains(txid) {
        let left = remove_position(unspent[txid], position);
        if left.len() == 0 {
            unspent.remove(txid)
        } else {
            unspent.insert(txid, left)
        }
    } else {
        unspent
    }
}

/// A map after the marked outputs were spent, in the order of the marks.
pub open spec fn spend_marks(
    unspent: Map<Seq<u8>, Seq<TxOutputView>>,
    marks: Seq<(Seq<u8>, usize)>,
) -> Map<Seq<u8>, Seq<TxOutputView>>
    decreases marks.len(),
{
    if marks.len() == 0 {
        unspent
    } else {
        spend_map(spend_marks(unspent, marks.drop_last()), marks.last().0, marks.last().1)
    }
}

/// A map after a list of transactions was applied: see `apply_transactions`.
pub open spec fn apply_map(
    unspent: Map<Seq<u8>, Seq<TxOutputView>>,
    transactions: Seq<TransactionView>,
) -> Map<Seq<u8>, Seq<TxOutputView>>
    decreases transactions.len(),
{
    if transactions.len() == 0 {
        unspent
    } else {
        let transaction = transactions.last();
        let before = apply_map(unspent, transactions.drop_last());
        let spent = if transaction.is_coinbase() {
            before
        } else {
            spend_marks(before, spent_by(transaction, transaction.vin.len()))
        };
        spent.insert(transaction.id, transaction.vout)
    }
}

/// Spending an output in the entries spends it in their map.
pub proof fn lemma_spend_map(
    entries: Seq<(Seq<u8>, Seq<TxOutputView>)>,
    txid: Seq<u8>,
    position: usize,
)
    requires
        distinct_keys(entries),
    ensures
        assoc_map(spend(entries, txid, position)) == spend_map(
            assoc_map(entries),
            txid,
            position,
        ),
{
    lemma_key_index(entries, txid);
    lemma_assoc_dom(entries, txid);
    match key_index(entries, txid) {
        Some(i) => {
            lemma_assoc_index(entries, i);
            let left = remove_position(entries[i].1, position);
            if left.len() == 0 {
                lemma_assoc_remove(entries, i);
            } else {
                lemma_assoc_update(entries, i, left);
            }
        },
        None => {
            if has_key(entries, txid) {
                let i = choose|i: int| 0 <= i < entries.len() && #[trigger] entries[i].0 == txid;
                assert(entries[i].0 != txid);
            }
        },
    }
}

/// Spending the inputs of a transaction in the entries spends them in their map.
pub proof fn lemma_spend_inputs_map(
    entries: Seq<(Seq<u8>, Seq<TxOutputView>)>,
    transaction: TransactionView,
    count: nat,
)
    requires
        distinct_keys(entries),
        count <= transaction.vin.len(),
    ensures
        assoc_map(spend_inputs(entries, transaction, count)) == spend_marks(
            assoc_map(entries),
            spent_by(transaction, count),
        ),
    decreases count,
{
    if count > 0 {
        lemma_spend_inputs_map(entries, transaction, (count - 1) as nat);
        lemma_spend_inputs_distinct(entries, transaction, (count - 1) as nat);
        let input = transaction.vin[count - 1];
        lemma_spend_map(
            spend_inputs(entries, transaction, (count - 1) as nat),
            input.txid,
            input.vout,
        );
        let marks = spent_by(transaction, count);
        assert(marks.drop_last() =~= spent_by(transaction, (count - 1) as nat));
        assert(marks.last() == (input.txid, input.vout));
    }
}

/// Putting outputs under an id in the entries inserts them into their map.
pub proof fn lemma_put_map(
    entries: Seq<(Seq<u8>, Seq<TxOutputView>)>,
    txid: Seq<u8>,
    outputs: Seq<TxOutputView>,
)
    requires
        distinct_keys(entries),
    ensures
        assoc_map(put(entries, txid, outputs)) == assoc_map(entries).insert(txid, outputs),
{
    lemma_key_index(entries, txid);
    match key_index(entries, txid) {
        Some(i) => {
            lemma_assoc_update(entries, i, outputs);
        },
        None => {
            lemma_assoc_push(entries, txid, outputs);
        },
    }
}

/// Applying transactions to the entries applies them to their map.
pub proof fn lemma_apply_map(
    entries: Seq<(Seq<u8>, Seq<TxOutputView>)>,
    transactions: Seq<TransactionView>,
)
    requires
        distinct_keys(entries),
    ensures
        assoc_map(apply_transactions(entries, transactions)) == apply_map(
            assoc_map(entries),
            transactions,
        ),
    decreases transactions.len(),
{
    if transactions.len() > 0 {
        let transaction = transactions.last();
        let before = apply_transactions(entries, transactions.drop_last());
        lemma_apply_map(entries, transactions.drop_last());
        lemma_apply_distinct(entries, transactions.drop_last());
        lemma_spend_inputs_map(before, transaction, transaction.vin.len());
        lemma_spend_inputs_distinct(before, transaction, transaction.vin.len());
        let spent = if transaction.is_coinbase() {
            before
        } else {
            spend_inputs(before, transaction, transaction.vin.len())
        };
        lemma_put_map(spent, transaction.id, transaction.vout);
    }
}

/// A list without the items at the positions that the marks on a transaction name, taken
/// out mark by mark in the order of the marks.
pub open spec fn remove_marked<V>(items: Seq<V>, marks: Seq<(Seq<u8>, usize)>, txid: Seq<u8>) -> Seq<
    V,
>
    decreases marks.len(),
{
    if marks.len() == 0 {
        items
    } else {
        let before = remove_marked(items, marks.drop_last(), txid);
        if marks.last().0 == txid {
            remove_position(before, marks.last().1)
        } else {
            before
        }
    }
}

/// The marks on one transaction name falling positions: each one a position before that of
/// every mark on the transaction that stands before it.
pub open spec fn falling(marks: Seq<(Seq<u8>, usize)>) -> bool {
    forall|a: int, b: int|
        0 <= a < b < marks.len() && (#[trigger] marks[a]).0 == (#[trigger] marks[b]).0
            ==> marks[a].1 > marks[b].1
}

/// Marks on other transactions take nothing out, and what is taken out is never more than
/// there is.
pub proof fn lemma_remove_marked<V>(items: Seq<V>, marks: Seq<(Seq<u8>, usize)>, txid: Seq<u8>)
    ensures
        remove_marked(items, marks, txid).len() <= items.len(),
        unmarked(marks, txid) ==> remove_marked(items, marks, txid) == items,
    decreases marks.len(),
{
    if marks.len() > 0 {
        let rest = marks.drop_last();
        lemma_remove_marked(items, rest, txid);
        if unmarked(marks, txid) {
            assert(unmarked(rest, txid)) by {
                assert forall|a: int| 0 <= a < rest.len() implies (#[trigger] rest[a]).0
                    != txid by {
                    assert(marks[a].0 != txid);
                }
            }
            assert(marks[marks.len() - 1].0 != txid);
        }
    }
}

/// Taking out by two lists of marks, one after the other.
pub proof fn lemma_remove_marked_add<V>(
    items: Seq<V>,
    first: Seq<(Seq<u8>, usize)>,
    second: Seq<(Seq<u8>, usize)>,
    txid: Seq<u8>,
)
    ensures
        remove_marked(items, first + second, txid) == remove_marked(
            remove_marked(items, first, txid),
            second,
            txid,
        ),
    decreases second.len(),
{
    if second.len() == 0 {
        assert(first + second =~= first);
    } else {
        lemma_remove_marked_add(items, first, second.drop_last(), txid);
        assert((first + second).drop_last() =~= first + second.drop_last());
        assert((first + second).last() == second.last());
    }
}

/// Spending by two lists of marks, one after the other.
pub proof fn lemma_spend_marks_add(
    unspent: Map<Seq<u8>, Seq<TxOutputView>>,
    first: Seq<(Seq<u8>, usize)>,
    second: Seq<(Seq<u8>, usize)>,
)
    ensures
        spend_marks(unspent, first + second) == spend_marks(spend_marks(unspent, first), second),
    decreases second.len(),
{
    if second.len() == 0 {
        assert(first + second =~= first);
    } else {
        lemma_spend_marks_add(unspent, first, second.drop_last());
        assert((first + second).drop_last() =~= first + second.drop_last());
        assert((first + second).last() == second.last());
    }
}

/// What a map holds under an id after marked outputs were spent: without a mark on the id,
/// what it held; with marks, what it held without the outputs at the marked positions,
/// taken out in the order of the marks, and nothing where no output is left.
#[verifier::rlimit(50)]
pub proof fn lemma_spend_marks_at(
    unspent: Map<Seq<u8>, Seq<TxOutputView>>,
    marks: Seq<(Seq<u8>, usize)>,
    txid: Seq<u8>,
)
    ensures
        spend_marks(unspent, marks).dom().contains(txid) ==> unspent.dom().contains(txid),
        unmarked(marks, txid) ==> {
            &&& spend_marks(unspent, marks).dom().contains(txid) == unspent.dom().contains(txid)
            &&& unspent.dom().contains(txid) ==> spend_marks(unspent, marks)[txid]
                == unspent[txid]
        },
        !unmarked(marks, txid) ==> {
            let left = remove_marked(unspent[txid], marks, txid);
            &&& spend_marks(unspent, marks).dom().contains(txid) == (unspent.dom().contains(txid)
                && left.len() > 0)
            &&& spend_marks(unspent, marks).dom().contains(txid) ==> spend_marks(
                unspent,
                marks,
            )[txid] == left
        },
    decreases marks.len(),
{
    if marks.len() > 0 {
        let rest = marks.drop_last();
        let last = marks.last();
        lemma_spend_marks_at(unspent, rest, txid);
        lemma_remove_marked(unspent[txid], rest, txid);
        let before = spend_marks(unspent, rest);
        let after = spend_marks(unspent, marks);
        let earlier = remove_marked(unspent[txid], rest, txid);
        assert(after == spend_map(before, last.0, last.1));
        assert(marks[marks.len() - 1] == last);
        if unmarked(marks, txid) {
            assert(unmarked(rest, txid)) by {
                assert forall|a: int| 0 <= a < rest.len() implies (#[trigger] rest[a]).0
                    != txid by {
                    assert(marks[a].0 != txid);
                }
            }
            assert(last.0 != txid);
        } else if last.0 != txid {
            let a = choose|a: int| 0 <= a < marks.len() && (#[trigger] marks[a]).0 == txid;
            assert(rest[a] == marks[a]);
            assert(!unmarked(rest, txid));
            assert(after.dom().contains(txid) == before.dom().contains(txid));
            if before.dom().contains(txid) {
                assert(after[txid] == before[txid]);
            }
        } else {
            if before.dom().contains(txid) {
                assert(before[txid] == earlier);
            } else if unspent.dom().contains(txid) {
                assert(!unmarked(rest, txid));
                assert(earlier.len() == 0);
            }
        }
    } else {
        assert(unmarked(marks, txid));
    }
}

/// Under an id, what a map holds after marked outputs were spent hangs on nothing but what
/// it held under that id.
pub proof fn lemma_spend_marks_local(
    left: Map<Seq<u8>, Seq<TxOutputView>>,
    right: Map<Seq<u8>, Seq<TxOutputView>>,
    marks: Seq<(Seq<u8>, usize)>,
    txid: Seq<u8>,
)
    requires
        left.dom().contains(txid) == right.dom().contains(txid),
        left.dom().contains(txid) ==> left[txid] == right[txid],
    ensures
        spend_marks(left, marks).dom().contains(txid) == spend_marks(right, marks).dom().contains(
            txid,
        ),
        spend_marks(left, marks).dom().contains(txid) ==> spend_marks(left, marks)[txid]
            == spend_marks(right, marks)[txid],
{
    lemma_spend_marks_at(left, marks, txid);
    lemma_spend_marks_at(right, marks, txid);
}

/// A mark stands in two lists, one after the other, where it stands in one of them.
pub proof fn lemma_contains_add(
    first: Seq<(Seq<u8>, usize)>,
    second: Seq<(Seq<u8>, usize)>,
    mark: (Seq<u8>, usize),
)
    ensures
        (first + second).contains(mark) <==> first.contains(mark) || second.contains(mark),
{
    let both = first + second;
    if both.contains(mark) {
        let a = choose|a: int| 0 <= a < both.len() && both[a] == mark;
        if a < first.len() {
            assert(first[a] == mark);
        } else {
            assert(second[a - first.len()] == mark);
        }
    }
    if first.contains(mark) {
        let a = choose|a: int| 0 <= a < first.len() && first[a] == mark;
        assert(both[a] == mark);
    }
    if second.contains(mark) {
        let a = choose|a: int| 0 <= a < second.len() && second[a] == mark;
        assert(both[first.len() + a] == mark);
    }
}

/// What is kept of a transaction hangs on nothing but which of its positions are marked.
pub proof fn lemma_kept_same_marks(
    transaction: TransactionView,
    first: Seq<(Seq<u8>, usize)>,
    second: Seq<(Seq<u8>, usize)>,
    count: nat,
)
    requires
        forall|position: usize|
            first.contains((transaction.id, position)) == second.contains(
                (transaction.id, position),
            ),
    ensures
        kept(transaction, first, count) == kept(transaction, second, count),
    decreases count,
{
    if count > 0 {
        lemma_kept_same_marks(transaction, first, second, (count - 1) as nat);
        let index = (count - 1) as usize;
        assert(first.contains((transaction.id, index)) == second.contains(
            (transaction.id, index),
        ));
    }
}

/// More marks on a transaction, at falling positions that all lie before every other mark
/// on it, take the outputs at those positions out of what is kept.
pub proof fn lemma_kept_marked(
    transaction: TransactionView,
    first: Seq<(Seq<u8>, usize)>,
    second: Seq<(Seq<u8>, usize)>,
    count: nat,
)
    requires
        falling(first),
        forall|a: int, c: int|
            0 <= a < first.len() && 0 <= c < second.len() && (#[trigger] first[a]).0
                == transaction.id && (#[trigger] second[c]).0 == transaction.id ==> first[a].1
                < second[c].1,
        count <= transaction.vout.len() <= usize::MAX,
    ensures
        kept(transaction, first + second, count) == remove_marked(
            kept(transaction, second, count),
            first,
            transaction.id,
        ),
    decreases first.len(),
{
    let id = transaction.id;
    if first.len() == 0 {
        assert(first + second =~= second);
    } else {
        let rest = first.drop_last();
        let last = first.last();
        assert(first =~= rest + seq![last]);
        assert(falling(rest)) by {
            assert forall|a: int, b: int|
                0 <= a < b < rest.len() && (#[trigger] rest[a]).0 == (#[trigger] rest[b]).0
                    implies rest[a].1 > rest[b].1 by {
                assert(first[a].0 == first[b].0);
            }
        }
        assert forall|a: int, c: int|
            0 <= a < rest.len() && 0 <= c < second.len() && (#[trigger] rest[a]).0 == id && (
            #[trigger] second[c]).0 == id implies rest[a].1 < second[c].1 by {
            assert(first[a].0 == id);
        }
        lemma_kept_marked(transaction, rest, second, count);
        let others = rest + second;
        if last.0 != id {
            assert forall|position: usize|
                (first + second).contains((id, position)) == others.contains((id, position)) by {
                let mark = (id, position);
                lemma_contains_add(first, second, mark);
                lemma_contains_add(rest, second, mark);
                lemma_contains_add(rest, seq![last], mark);
                if seq![last].contains(mark) {
                    let a = choose|a: int| 0 <= a < 1 && seq![last][a] == mark;
                    assert(false);
                }
            }
            lemma_kept_same_marks(transaction, first + second, others, count);
        } else {
            let position = last.1;
            let single = seq![last];
            assert(single[0] == (id, position));
            assert(single.contains((id, position)));
            assert forall|c: int| 0 <= c < others.len() && (#[trigger] others[c]).0
                == id implies others[c].1 > position by {
                if c < rest.len() {
                    assert(first[c].0 == first[first.len() - 1].0);
                } else {
                    assert(first[first.len() - 1].0 == id);
                    assert(second[c - rest.len()].0 == id);
                }
            }
            lemma_kept_without(transaction, single, others, position, count);
            assert forall|place: usize|
                (first + second).contains((id, place)) == (single + others).contains(
                    (id, place),
                ) by {
                let mark = (id, place);
                lemma_contains_add(first, second, mark);
                lemma_contains_add(rest, single, mark);
                lemma_contains_add(single, others, mark);
                lemma_contains_add(rest, second, mark);
            }
            lemma_kept_same_marks(transaction, first + second, single + others, count);
        }
    }
}

/// What two lists of transactions spend, one after the other.
pub proof fn lemma_marks_add(left: Seq<TransactionView>, right: Seq<TransactionView>)
    ensures
        marks_of(left + right) == marks_of(left) + marks_of(right),
{
    crate::unspent::lemma_scan_add(ScanState::empty(), left, right);
    lemma_scan_marks(ScanState::empty().scan(left), right);
}

/// The new transactions of a block spend afresh: no two transactions, new or old, have one
/// id; every new transaction has an output; no new transaction spends from a new one; and
/// where the new transactions spend several outputs of one transaction, they spend them at
/// falling positions, all of which lie before every position of that transaction that an
/// old transaction spent.
pub open spec fn spends_afresh(old: Seq<TransactionView>, new: Seq<TransactionView>) -> bool {
    &&& distinct_ids(new + old)
    &&& forall|k: int|
        0 <= k < (new + old).len() ==> (#[trigger] (new + old)[k]).vout.len() <= usize::MAX
    &&& forall|k: int| 0 <= k < new.len() ==> (#[trigger] new[k]).vout.len() > 0
    &&& falling(marks_of(new))
    &&& forall|a: int, k: int|
        0 <= a < marks_of(new).len() && 0 <= k < new.len() ==> (#[trigger] marks_of(new)[a]).0
            != (#[trigger] new[k]).id
    &&& forall|a: int, c: int|
        0 <= a < marks_of(new).len() && 0 <= c < marks_of(old).len() && (#[trigger] marks_of(
            new,
        )[a]).0 == (#[trigger] marks_of(old)[c]).0 ==> marks_of(new)[a].1 < marks_of(old)[c].1
}

/// What a map holds under an id after transactions were applied that do not spend from
/// each other: under the id of one of them, its outputs; under another id, what the map
/// holds after all that the transactions spend was spent, in order.
#[verifier::rlimit(50)]
pub proof fn lemma_apply_map_at(
    unspent: Map<Seq<u8>, Seq<TxOutputView>>,
    transactions: Seq<TransactionView>,
    txid: Seq<u8>,
)
    requires
        distinct_ids(transactions),
        forall|a: int, k: int|
            0 <= a < marks_of(transactions).len() && 0 <= k < transactions.len() ==> (
            #[trigger] marks_of(transactions)[a]).0 != (#[trigger] transactions[k]).id,
    ensures
        forall|k: int|
            0 <= k < transactions.len() && (#[trigger] transactions[k]).id == txid ==> {
                &&& apply_map(unspent, transactions).dom().contains(txid)
                &&& apply_map(unspent, transactions)[txid] == transactions[k].vout
            },
        (forall|k: int| 0 <= k < transactions.len() ==> (#[trigger] transactions[k]).id != txid)
            ==> {
            let spent = spend_marks(unspent, marks_of(transactions));
            &&& apply_map(unspent, transactions).dom().contains(txid) == spent.dom().contains(txid)
            &&& spent.dom().contains(txid) ==> apply_map(unspent, transactions)[txid]
                == spent[txid]
        },
    decreases transactions.len(),
{
    if transactions.len() > 0 {
        let rest = transactions.drop_last();
        let transaction = transactions.last();
        let marks = marks_of(transactions);
        let earlier = marks_of(rest);
        let added = if transaction.is_coinbase() {
            Seq::<(Seq<u8>, usize)>::empty()
        } else {
            spent_by(transaction, transaction.vin.len())
        };
        assert(marks =~= earlier + added);
        assert(distinct_ids(rest)) by {
            assert forall|i: int, j: int| 0 <= i < j < rest.len() implies rest[i].id
                != rest[j].id by {
                assert(transactions[i].id != transactions[j].id);
            }
        }
        assert forall|a: int, k: int| 0 <= a < earlier.len() && 0 <= k < rest.len() implies (
        #[trigger] earlier[a]).0 != (#[trigger] rest[k]).id by {
            assert(marks[a].0 != transactions[k].id);
        }
        lemma_apply_map_at(unspent, rest, txid);
        let before = apply_map(unspent, rest);
        let after = apply_map(unspent, transactions);
        assert(spend_marks(before, Seq::<(Seq<u8>, usize)>::empty()) == before);
        assert(after == spend_marks(before, added).insert(transaction.id, transaction.vout));
        lemma_spend_marks_at(before, added, txid);
        let is_id = exists|k: int| 0 <= k < transactions.len() && (#[trigger] transactions[k]).id
            == txid;
        if is_id {
            assert forall|k: int| 0 <= k < transactions.len() && (#[trigger] transactions[k]).id
                == txid implies after.dom().contains(txid) && after[txid]
                == transactions[k].vout by {
                if k < rest.len() {
                    assert(rest[k].id == txid);
                    assert(transactions[k].id != transactions[transactions.len() - 1].id);
                    assert(unmarked(added, txid)) by {
                        assert forall|a: int| 0 <= a < added.len() implies (#[trigger] added[a]).0
                            != txid by {
                            assert(marks[earlier.len() + a].0 != transactions[k].id);
                        }
                    }
                }
            }
        } else {
            assert(transaction.id != txid) by {
                assert(transactions[transactions.len() - 1].id != txid);
            }
            assert forall|k: int| 0 <= k < rest.len() implies (#[trigger] rest[k]).id != txid by {
                assert(transactions[k].id != txid);
            }
            lemma_spend_marks_local(before, spend_marks(unspent, earlier), added, txid);
            lemma_spend_marks_add(unspent, earlier, added);
        }
    } else {
        assert(spend_marks(unspent, marks_of(transactions)) == unspent);
    }
}

/// Bringing the unspent outputs of a chain up to date with new transactions that spend
/// afresh gives, id by id, what a walk over the new transactions and then the chain finds
/// unspent.
#[verifier::rlimit(50)]
pub proof fn lemma_update_matches_walk(old: Seq<TransactionView>, new: Seq<TransactionView>)
    requires
        spends_afresh(old, new),
    ensures
        assoc_map(apply_transactions(unspent_outputs(old), new)) == assoc_map(
            unspent_outputs(new + old),
        ),
{
    let all = new + old;
    let stored = unspent_outputs(old);
    let updated = apply_map(assoc_map(stored), new);
    let walked = assoc_map(unspent_outputs(all));
    let marks = marks_of(new);
    lemma_unspent_distinct(old);
    lemma_apply_map(stored, new);
    assert(distinct_ids(new)) by {
        assert forall|i: int, j: int| 0 <= i < j < new.len() implies new[i].id != new[j].id by {
            assert(all[i].id != all[j].id);
        }
    }
    assert(distinct_ids(old)) by {
        assert forall|i: int, j: int| 0 <= i < j < old.len() implies old[i].id != old[j].id by {
            assert(all[new.len() + i].id != all[new.len() + j].id);
        }
    }
    assert forall|txid: Seq<u8>|
        #![trigger updated.dom().contains(txid)]
        #![trigger walked.dom().contains(txid)]
        updated.dom().contains(txid) == walked.dom().contains(txid) && (updated.dom().contains(
            txid,
        ) ==> updated[txid] == walked[txid]) by {
        lemma_apply_map_at(assoc_map(stored), new, txid);
        lemma_spend_marks_at(assoc_map(stored), marks, txid);
        let is_new = exists|k: int| 0 <= k < new.len() && (#[trigger] new[k]).id == txid;
        let is_old = exists|j: int| 0 <= j < old.len() && (#[trigger] old[j]).id == txid;
        if is_new {
            let k = choose|k: int| 0 <= k < new.len() && (#[trigger] new[k]).id == txid;
            let transaction = new[k];
            assert(all[k] == transaction);
            lemma_unspent_at(all, k);
            assert(all.take(k) =~= new.take(k));
            assert(new.take(k) + new.skip(k) =~= new);
            lemma_marks_add(new.take(k), new.skip(k));
            let seen = marks_of(new.take(k));
            assert(unmarked(seen, txid)) by {
                assert forall|a: int| 0 <= a < seen.len() implies (#[trigger] seen[a]).0
                    != txid by {
                    assert(marks[a] == seen[a]);
                    assert(marks[a].0 != new[k].id);
                }
            }
            lemma_kept_all(transaction, seen, transaction.vout.len());
            assert(transaction.vout.take(transaction.vout.len() as int) =~= transaction.vout);
        } else if is_old {
            let j = choose|j: int| 0 <= j < old.len() && (#[trigger] old[j]).id == txid;
            let transaction = old[j];
            let count = transaction.vout.len();
            assert forall|k: int| 0 <= k < new.len() implies (#[trigger] new[k]).id != txid by {}
            assert(all[new.len() + j] == transaction);
            lemma_unspent_at(all, new.len() + j);
            lemma_unspent_at(old, j);
            assert(all.take(new.len() + j) =~= new + old.take(j));
            lemma_marks_add(new, old.take(j));
            assert(old.take(j) + old.skip(j) =~= old);
            lemma_marks_add(old.take(j), old.skip(j));
            let seen = marks_of(old.take(j));
            let found = kept(transaction, seen, count);
            if unmarked(marks, txid) {
                lemma_kept_unmarked(transaction, marks, seen, count);
            } else {
                assert forall|a: int, c: int|
                    0 <= a < marks.len() && 0 <= c < seen.len() && (#[trigger] marks[a]).0
                        == txid && (#[trigger] seen[c]).0 == txid implies marks[a].1
                    < seen[c].1 by {
                    assert(marks_of(old)[c] == seen[c]);
                    assert(marks[a].0 == marks_of(old)[c].0);
                }
                lemma_kept_marked(transaction, marks, seen, count);
                lemma_remove_marked(found, marks, txid);
            }
        } else {
            assert forall|k: int| 0 <= k < new.len() implies (#[trigger] new[k]).id != txid by {}
            lemma_assoc_dom(stored, txid);
            if has_key(stored, txid) {
                lemma_unspent_keys(old, txid);
            }
            lemma_assoc_dom(unspent_outputs(all), txid);
            if has_key(unspent_outputs(all), txid) {
                lemma_unspent_keys(all, txid);
                let k = choose|k: int| 0 <= k < all.len() && (#[trigger] all[k]).id == txid;
                if k < new.len() {
                    assert(new[k].id == txid);
                } else {
                    assert(old[k - new.len()].id == txid);
                }
            }
        }
    }
    assert(updated =~= walked);
}

} // verus!
