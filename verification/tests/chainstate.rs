use mini_blockchain::blockchain::Blockchain;
use mini_blockchain::blocks::Block;
use mini_blockchain::error::BlockchainError;
use mini_blockchain::transaction::{Transaction, TxInput, TxOutput};
use mini_blockchain::utxoset::UTXOSet;
use mini_blockchain::wallets::{address_key_hash, Wallets};

fn entries(utxo_set: &UTXOSet) -> Vec<(Vec<u8>, Vec<(i32, Vec<u8>)>)> {
    let mut all: Vec<(Vec<u8>, Vec<(i32, Vec<u8>)>)> = utxo_set
        .get_entries()
        .iter()
        .map(|(txid, outs)| {
            (
                txid.clone(),
                outs.iter().map(|o| (o.get_value(), o.get_pub_key_hash().to_vec())).collect(),
            )
        })
        .collect();
    all.sort();
    all
}

fn output(value: i32, lock: u8) -> TxOutput {
    TxOutput::from_parts(value, vec![lock]).unwrap()
}

fn spend(id: u8, spent: &[(u8, usize)], outputs: Vec<TxOutput>) -> Transaction {
    Transaction::from_parts(
        vec![id],
        spent.iter().map(|(txid, vout)| TxInput::from_parts(vec![*txid], *vout, vec![], vec![1])).collect(),
        outputs,
    )
}

fn mint(id: u8, outputs: Vec<TxOutput>) -> Transaction {
    Transaction::from_parts(vec![id], vec![TxInput::new(&[], 0)], outputs)
}

fn ledger_of(blocks_oldest_first: Vec<Vec<Transaction>>) -> Blockchain {
    let mut blocks: Vec<Block> = vec![];
    let mut prev = String::from("None");
    for (height, transactions) in blocks_oldest_first.into_iter().enumerate() {
        let hash = format!("block{}", height);
        blocks.push(Block::from_parts(0, prev, hash.clone(), transactions, 0, height).unwrap());
        prev = hash;
    }
    Blockchain::new(blocks, Some(prev)).unwrap()
}

#[test]
fn a_walk_finds_what_no_later_input_refers_to() {
    let chain = ledger_of(vec![
        vec![mint(1, vec![output(10, 7), output(5, 8), output(2, 7)])],
        vec![mint(2, vec![output(10, 8)]), spend(3, &[(1, 1)], vec![output(4, 9), output(1, 8)])],
        vec![spend(4, &[(3, 0), (2, 0)], vec![output(14, 7)])],
    ]);
    let found = chain.find_utxo();
    let listed: Vec<(Vec<u8>, Vec<i32>)> = found
        .iter()
        .map(|(txid, outs)| (txid.clone(), outs.iter().map(|o| o.get_value()).collect()))
        .collect();
    assert_eq!(
        listed,
        vec![(vec![4u8], vec![14]), (vec![3u8], vec![1]), (vec![1u8], vec![10, 2])]
    );
}

#[test]
fn an_input_of_a_coinbase_spends_nothing() {
    let chain = ledger_of(vec![
        vec![mint(1, vec![output(10, 7)])],
        vec![Transaction::from_parts(
            vec![2],
            vec![TxInput::from_parts(vec![1], 0, vec![], vec![])],
            vec![output(10, 8)],
        )],
    ]);
    let found = chain.find_utxo();
    assert_eq!(found.len(), 2);
    assert_eq!(found[0].0, vec![2u8]);
    assert_eq!(found[1].0, vec![1u8]);
}

#[test]
fn an_output_spent_later_in_the_same_block_is_found_unspent_by_a_walk() {
    let chain = ledger_of(vec![vec![
        mint(1, vec![output(10, 7)]),
        spend(2, &[(1, 0)], vec![output(10, 8)]),
    ]]);
    let found = chain.find_utxo();
    assert_eq!(found.len(), 2);
    let reversed = ledger_of(vec![vec![
        spend(2, &[(1, 0)], vec![output(10, 8)]),
        mint(1, vec![output(10, 7)]),
    ]]);
    let found = reversed.find_utxo();
    assert_eq!(found.len(), 1);
    assert_eq!(found[0].0, vec![2u8]);
}

#[test]
fn reindex_idempotence() {
    let mut wallets = Wallets::new();
    let a = wallets.create_wallets().unwrap();
    let b = wallets.create_wallets().unwrap();
    let chain = Blockchain::init(vec![], None, &a).unwrap();
    let mut utxo_set = UTXOSet::new(chain);
    utxo_set.reindex();
    let transaction = Transaction::utxo_transaction(&a, &b, 4, &utxo_set, &wallets).unwrap();
    let coinbase = Transaction::coinbase_tx(&b).unwrap();
    utxo_set.get_blockchain_mut().mine_block(&[transaction, coinbase]).unwrap();
    utxo_set.get_blockchain_mut().mine_block(&[Transaction::coinbase_tx(&a).unwrap()]).unwrap();
    utxo_set.reindex();
    let once: Vec<(Vec<u8>, Vec<Vec<u8>>)> = utxo_set
        .get_entries()
        .iter()
        .map(|(txid, outs)| (txid.clone(), outs.iter().map(|o| bincode_output(o)).collect()))
        .collect();
    utxo_set.reindex();
    let twice: Vec<(Vec<u8>, Vec<Vec<u8>>)> = utxo_set
        .get_entries()
        .iter()
        .map(|(txid, outs)| (txid.clone(), outs.iter().map(|o| bincode_output(o)).collect()))
        .collect();
    assert_eq!(once, twice);
    assert_eq!(utxo_set.count_transaction(), 3);
}

fn bincode_output(output: &TxOutput) -> Vec<u8> {
    bincode::serialize(&(output.get_value(), output.get_pub_key_hash().to_vec())).unwrap()
}

#[test]
fn chainstate_equivalence() {
    let chain = ledger_of(vec![
        vec![mint(1, vec![output(10, 7), output(5, 8), output(2, 7)])],
        vec![mint(2, vec![output(10, 8)]), spend(3, &[(1, 1)], vec![output(4, 9), output(1, 8)])],
        vec![spend(4, &[(3, 0), (2, 0)], vec![output(14, 7)])],
    ]);
    let scanned = chain.find_utxo();
    let mut utxo_set = UTXOSet::new(chain);
    utxo_set.reindex();
    for lock in [7u8, 8, 9, 10] {
        let mut from_index: Vec<i32> =
            utxo_set.find_utxo(&[lock]).iter().map(|o| o.get_value()).collect();
        let mut from_scan: Vec<i32> = scanned
            .iter()
            .flat_map(|(_, outs)| outs.iter())
            .filter(|o| o.is_locked_with_key(&[lock]))
            .map(|o| o.get_value())
            .collect();
        from_index.sort();
        from_scan.sort();
        assert_eq!(from_index, from_scan);
    }
    let sevens: Vec<i32> = utxo_set.find_utxo(&[7]).iter().map(|o| o.get_value()).collect();
    assert_eq!(sevens, vec![14, 10, 2]);
    assert!(utxo_set.find_utxo(&[9]).is_empty());
}

#[test]
fn incremental_is_batch() {
    let mut wallets = Wallets::new();
    let a = wallets.create_wallets().unwrap();
    let b = wallets.create_wallets().unwrap();
    let chain = Blockchain::init(vec![], None, &a).unwrap();
    let mut utxo_set = UTXOSet::new(chain);
    utxo_set.reindex();
    let transaction = Transaction::utxo_transaction(&a, &b, 3, &utxo_set, &wallets).unwrap();
    let coinbase = Transaction::coinbase_tx(&a).unwrap();
    let block = utxo_set.get_blockchain_mut().mine_block(&[transaction, coinbase]).unwrap();
    utxo_set.update(&block);
    let incremental = entries(&utxo_set);
    utxo_set.reindex();
    assert_eq!(incremental, entries(&utxo_set));
    assert_eq!(utxo_set.count_transaction(), 2);
}

#[test]
fn an_update_removes_by_position_in_what_is_left() {
    let chain = ledger_of(vec![vec![mint(1, vec![output(10, 7), output(5, 8), output(2, 7)])]]);
    let mut utxo_set = UTXOSet::new(chain);
    utxo_set.reindex();
    let first = Block::from_parts(
        0,
        String::from("block0"),
        String::from("block1"),
        vec![spend(2, &[(1, 0)], vec![output(10, 9)])],
        0,
        1,
    )
    .unwrap();
    utxo_set.update(&first);
    assert_eq!(
        entries(&utxo_set),
        vec![
            (vec![1u8], vec![(5, vec![8u8]), (2, vec![7u8])]),
            (vec![2u8], vec![(10, vec![9u8])]),
        ]
    );
    let second = Block::from_parts(
        0,
        String::from("block1"),
        String::from("block2"),
        vec![spend(3, &[(1, 2)], vec![output(2, 9)])],
        0,
        2,
    )
    .unwrap();
    utxo_set.update(&second);
    assert_eq!(
        entries(&utxo_set),
        vec![
            (vec![1u8], vec![(5, vec![8u8]), (2, vec![7u8])]),
            (vec![2u8], vec![(10, vec![9u8])]),
            (vec![3u8], vec![(2, vec![9u8])]),
        ]
    );
    let third = Block::from_parts(
        0,
        String::from("block2"),
        String::from("block3"),
        vec![spend(4, &[(1, 0), (1, 0), (9, 0)], vec![])],
        0,
        3,
    )
    .unwrap();
    utxo_set.update(&third);
    assert_eq!(
        entries(&utxo_set),
        vec![
            (vec![2u8], vec![(10, vec![9u8])]),
            (vec![3u8], vec![(2, vec![9u8])]),
            (vec![4u8], vec![]),
        ]
    );
}

#[test]
fn an_update_puts_the_outputs_of_a_coinbase_without_spending() {
    let chain = ledger_of(vec![vec![mint(1, vec![output(10, 7)])]]);
    let mut utxo_set = UTXOSet::new(chain);
    utxo_set.reindex();
    let block = Block::from_parts(
        0,
        String::from("block0"),
        String::from("block1"),
        vec![
            Transaction::from_parts(
                vec![2],
                vec![TxInput::from_parts(vec![1], 0, vec![], vec![])],
                vec![output(10, 8)],
            ),
            mint(1, vec![output(3, 3)]),
        ],
        0,
        1,
    )
    .unwrap();
    utxo_set.update(&block);
    assert_eq!(
        entries(&utxo_set),
        vec![(vec![1u8], vec![(3, vec![3u8])]), (vec![2u8], vec![(10, vec![8u8])])]
    );
}

#[test]
fn outputs_are_picked_in_order_until_the_amount_is_reached() {
    let chain = ledger_of(vec![
        vec![mint(1, vec![output(4, 7), output(5, 8), output(2, 7)])],
        vec![mint(2, vec![output(3, 7), output(6, 7)])],
    ]);
    let mut utxo_set = UTXOSet::new(chain);
    utxo_set.reindex();
    assert_eq!(
        utxo_set.find_spendable_outputs(&[7], 5),
        (9, vec![(vec![2u8], vec![0usize, 1])])
    );
    assert_eq!(
        utxo_set.find_spendable_outputs(&[7], 10),
        (13, vec![(vec![2u8], vec![0usize, 1]), (vec![1u8], vec![0usize])])
    );
    assert_eq!(
        utxo_set.find_spendable_outputs(&[7], 100),
        (15, vec![(vec![2u8], vec![0usize, 1]), (vec![1u8], vec![0usize, 2])])
    );
    assert_eq!(utxo_set.find_spendable_outputs(&[7], 3), (3, vec![(vec![2u8], vec![0usize])]));
    assert_eq!(utxo_set.find_spendable_outputs(&[7], 0), (0, vec![]));
    assert_eq!(utxo_set.find_spendable_outputs(&[7], -4), (0, vec![]));
    assert_eq!(utxo_set.find_spendable_outputs(&[9], 5), (0, vec![]));
}

#[test]
fn the_sum_of_what_is_picked_does_not_overflow() {
    let chain = ledger_of(vec![vec![mint(
        1,
        vec![output(i32::MAX - 1, 7), output(i32::MAX, 7), output(1, 7)],
    )]]);
    let mut utxo_set = UTXOSet::new(chain);
    utxo_set.reindex();
    assert_eq!(
        utxo_set.find_spendable_outputs(&[7], i32::MAX),
        (2 * (i32::MAX as i64) - 1, vec![(vec![1u8], vec![0usize, 1])])
    );
}

#[test]
fn a_chainstate_from_stored_entries() {
    let chain = ledger_of(vec![vec![mint(1, vec![output(10, 7)])]]);
    let set = UTXOSet::with_entries(
        chain.clone(),
        vec![(vec![1], vec![output(1, 1)]), (vec![2], vec![output(2, 2)])],
    )
    .unwrap();
    assert_eq!(set.count_transaction(), 2);
    assert_eq!(set.find_utxo(&[2])[0].get_value(), 2);
    assert!(matches!(
        UTXOSet::with_entries(chain.clone(), vec![(vec![1], vec![]), (vec![1], vec![output(2, 2)])]),
        Err(BlockchainError::StoreError)
    ));
    assert_eq!(UTXOSet::new(chain).count_transaction(), 0);
}

#[test]
fn balances_follow_the_blocks() {
    let mut wallets = Wallets::new();
    let a = wallets.create_wallets().unwrap();
    let b = wallets.create_wallets().unwrap();
    let chain = Blockchain::init(vec![], None, &a).unwrap();
    let mut utxo_set = UTXOSet::new(chain);
    utxo_set.reindex();
    let hash_a = address_key_hash(&a).unwrap();
    let hash_b = address_key_hash(&b).unwrap();
    let pay = Transaction::utxo_transaction(&a, &b, 10, &utxo_set, &wallets).unwrap();
    let block = utxo_set.get_blockchain_mut().mine_block(&[pay]).unwrap();
    utxo_set.update(&block);
    assert!(utxo_set.find_utxo(&hash_a).is_empty());
    assert_eq!(utxo_set.find_utxo(&hash_b).len(), 1);
    assert_eq!(utxo_set.count_transaction(), 1);
    let back = Transaction::utxo_transaction(&b, &a, 4, &utxo_set, &wallets).unwrap();
    let block = utxo_set.get_blockchain_mut().mine_block(&[back]).unwrap();
    utxo_set.update(&block);
    let values_a: Vec<i32> = utxo_set.find_utxo(&hash_a).iter().map(|o| o.get_value()).collect();
    let values_b: Vec<i32> = utxo_set.find_utxo(&hash_b).iter().map(|o| o.get_value()).collect();
    assert_eq!(values_a, vec![4]);
    assert_eq!(values_b, vec![6]);
    let from_updates = entries(&utxo_set);
    utxo_set.reindex();
    assert_eq!(from_updates, entries(&utxo_set));
}

#[test]
fn an_update_and_a_reindex_part_ways_on_a_second_output_of_one_transaction() {
    let first = vec![mint(1, vec![output(10, 7), output(5, 8)])];
    let second = vec![spend(2, &[(1, 0)], vec![output(10, 9)])];
    let third = vec![spend(3, &[(1, 1)], vec![output(5, 9)])];
    let mut utxo_set = UTXOSet::new(ledger_of(vec![first.clone(), second.clone()]));
    utxo_set.reindex();
    assert_eq!(
        entries(&utxo_set),
        vec![(vec![1u8], vec![(5, vec![8u8])]), (vec![2u8], vec![(10, vec![9u8])])]
    );
    let block =
        Block::from_parts(0, String::from("block1"), String::from("block2"), third.clone(), 0, 2)
            .unwrap();
    utxo_set.update(&block);
    let updated = entries(&utxo_set);
    let mut walked = UTXOSet::new(ledger_of(vec![first, second, third]));
    walked.reindex();
    assert_ne!(updated, entries(&walked));
    assert_eq!(
        entries(&walked),
        vec![(vec![2u8], vec![(10, vec![9u8])]), (vec![3u8], vec![(5, vec![9u8])])]
    );
}

#[test]
fn an_update_is_a_reindex_for_a_block_that_spends_afresh() {
    let first = vec![mint(1, vec![output(10, 7), output(5, 8)]), mint(2, vec![output(4, 7)])];
    let second = vec![
        spend(3, &[(1, 1), (2, 0)], vec![output(9, 9)]),
        mint(4, vec![output(10, 7)]),
    ];
    let mut utxo_set = UTXOSet::new(ledger_of(vec![first.clone()]));
    utxo_set.reindex();
    let block =
        Block::from_parts(0, String::from("block0"), String::from("block1"), second.clone(), 0, 1)
            .unwrap();
    utxo_set.update(&block);
    let updated = entries(&utxo_set);
    let mut walked = UTXOSet::new(ledger_of(vec![first, second]));
    walked.reindex();
    assert_eq!(updated, entries(&walked));
    assert_eq!(
        updated,
        vec![
            (vec![1u8], vec![(10, vec![7u8])]),
            (vec![3u8], vec![(9, vec![9u8])]),
            (vec![4u8], vec![(10, vec![7u8])]),
        ]
    );
}

#[test]
fn an_update_is_a_reindex_when_what_was_spent_before_stands_behind() {
    let first = vec![mint(1, vec![output(10, 7), output(5, 8), output(2, 7)])];
    let second = vec![spend(2, &[(1, 2)], vec![output(2, 9)])];
    let third = vec![spend(3, &[(1, 0)], vec![output(10, 9)])];
    let mut utxo_set = UTXOSet::new(ledger_of(vec![first.clone(), second.clone()]));
    utxo_set.reindex();
    let block =
        Block::from_parts(0, String::from("block1"), String::from("block2"), third.clone(), 0, 2)
            .unwrap();
    utxo_set.update(&block);
    let updated = entries(&utxo_set);
    let mut walked = UTXOSet::new(ledger_of(vec![first, second, third]));
    walked.reindex();
    assert_eq!(updated, entries(&walked));
    assert_eq!(
        updated,
        vec![
            (vec![1u8], vec![(5, vec![8u8])]),
            (vec![2u8], vec![(2, vec![9u8])]),
            (vec![3u8], vec![(10, vec![9u8])]),
        ]
    );
}

#[test]
fn an_update_is_a_reindex_when_outputs_of_one_transaction_are_spent_from_the_last_down() {
    let first = vec![mint(1, vec![output(10, 7), output(5, 8), output(2, 7), output(1, 6)])];
    let second = vec![spend(2, &[(1, 3)], vec![output(1, 9)])];
    let third = vec![
        spend(3, &[(1, 2), (1, 0)], vec![output(12, 9)]),
        mint(4, vec![output(10, 7)]),
    ];
    let mut utxo_set = UTXOSet::new(ledger_of(vec![first.clone(), second.clone()]));
    utxo_set.reindex();
    let block =
        Block::from_parts(0, String::from("block1"), String::from("block2"), third.clone(), 0, 2)
            .unwrap();
    utxo_set.update(&block);
    let updated = entries(&utxo_set);
    let mut walked = UTXOSet::new(ledger_of(vec![first, second, third]));
    walked.reindex();
    assert_eq!(updated, entries(&walked));
    assert_eq!(
        updated,
        vec![
            (vec![1u8], vec![(5, vec![8u8])]),
            (vec![2u8], vec![(1, vec![9u8])]),
            (vec![3u8], vec![(12, vec![9u8])]),
            (vec![4u8], vec![(10, vec![7u8])]),
        ]
    );
}

#[test]
fn an_update_and_a_reindex_part_ways_when_outputs_are_spent_from_the_first_up() {
    let first = vec![mint(1, vec![output(10, 7), output(5, 8), output(2, 7)])];
    let second = vec![spend(2, &[(1, 0), (1, 1)], vec![output(15, 9)])];
    let mut utxo_set = UTXOSet::new(ledger_of(vec![first.clone()]));
    utxo_set.reindex();
    let block =
        Block::from_parts(0, String::from("block0"), String::from("block1"), second.clone(), 0, 1)
            .unwrap();
    utxo_set.update(&block);
    let updated = entries(&utxo_set);
    assert_eq!(
        updated,
        vec![(vec![1u8], vec![(5, vec![8u8])]), (vec![2u8], vec![(15, vec![9u8])])]
    );
    let mut walked = UTXOSet::new(ledger_of(vec![first, second]));
    walked.reindex();
    assert_eq!(
        entries(&walked),
        vec![(vec![1u8], vec![(2, vec![7u8])]), (vec![2u8], vec![(15, vec![9u8])])]
    );
}
