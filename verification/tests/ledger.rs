use mini_blockchain::blockchain::Blockchain;
use mini_blockchain::blocks::Block;
use mini_blockchain::error::BlockchainError;
use mini_blockchain::transaction::{Transaction, TxInput};
use mini_blockchain::utxoset::UTXOSet;
use mini_blockchain::wallets::{address_key_hash, Wallets};

fn balance(utxo_set: &UTXOSet, address: &str) -> i32 {
    let hash = address_key_hash(address).unwrap();
    utxo_set.find_utxo(&hash).iter().map(|o| o.get_value()).sum()
}

fn tampered(tx: &Transaction) -> Transaction {
    let mut inputs: Vec<TxInput> = vec![];
    for (index, input) in tx.get_vin().iter().enumerate() {
        let mut signature = input.get_signature().to_vec();
        if index == 0 {
            signature[0] ^= 0x01;
        }
        inputs.push(TxInput::from_parts(
            input.get_txid().to_vec(),
            input.get_vout(),
            signature,
            input.get_pub_key().to_vec(),
        ));
    }
    Transaction::from_parts(tx.get_id().to_vec(), inputs, tx.get_vout().to_vec())
}

fn contents(chain: &Blockchain) -> (String, Vec<Vec<u8>>) {
    (chain.get_latest_blk_hash(), chain.get_blocks().iter().map(|b| b.serialize()).collect())
}

#[test]
fn genesis() {
    let mut wallets = Wallets::new();
    let address = wallets.create_wallets().unwrap();
    let chain = Blockchain::init(vec![], None, &address).unwrap();
    assert_eq!(chain.get_best_height(), 0);
    let hashes = chain.get_block_hashes();
    assert_eq!(hashes.len(), 1);
    assert_eq!(hashes[0], chain.get_latest_blk_hash().into_bytes());
    let genesis = chain.get_block(&hashes[0]).unwrap();
    assert_eq!(genesis.get_prev_block_hash(), "None");
    assert_eq!(genesis.get_height(), 0);
    assert_eq!(genesis.get_transactions().len(), 1);
    let coinbase = &genesis.get_transactions()[0];
    assert!(coinbase.is_coinbase());
    assert_eq!(coinbase.get_vout().len(), 1);
    assert_eq!(coinbase.get_vout()[0].get_value(), 10);
    assert_eq!(
        coinbase.get_vout()[0].get_pub_key_hash().to_vec(),
        address_key_hash(&address).unwrap()
    );
}

#[test]
fn init_keeps_a_ledger_that_is_there() {
    let mut wallets = Wallets::new();
    let address = wallets.create_wallets().unwrap();
    let chain = Blockchain::init(vec![], None, &address).unwrap();
    let again = Blockchain::init(
        chain.get_blocks().to_vec(),
        Some(chain.get_latest_blk_hash()),
        "not even an address",
    )
    .unwrap();
    assert_eq!(contents(&again), contents(&chain));
}

#[test]
fn init_refuses_a_bad_address() {
    assert!(matches!(
        Blockchain::init(vec![], None, "0OIl"),
        Err(BlockchainError::InvalidAddress)
    ));
}

#[test]
fn opening_needs_a_tip_that_names_a_block() {
    let mut wallets = Wallets::new();
    let address = wallets.create_wallets().unwrap();
    let chain = Blockchain::init(vec![], None, &address).unwrap();
    assert!(matches!(Blockchain::new(vec![], None), Err(BlockchainError::NoLedger)));
    assert!(matches!(
        Blockchain::new(chain.get_blocks().to_vec(), None),
        Err(BlockchainError::NoLedger)
    ));
    assert!(matches!(
        Blockchain::new(chain.get_blocks().to_vec(), Some(String::from("unknown"))),
        Err(BlockchainError::StoreError)
    ));
    assert!(matches!(
        Blockchain::new(vec![], Some(chain.get_latest_blk_hash())),
        Err(BlockchainError::StoreError)
    ));
    let opened =
        Blockchain::new(chain.get_blocks().to_vec(), Some(chain.get_latest_blk_hash())).unwrap();
    assert_eq!(contents(&opened), contents(&chain));
    assert_eq!(opened.get_best_height(), 0);
}

#[test]
fn mine_and_spend() {
    let mut wallets = Wallets::new();
    let a = wallets.create_wallets().unwrap();
    let b = wallets.create_wallets().unwrap();
    let chain = Blockchain::init(vec![], None, &a).unwrap();
    let mut utxo_set = UTXOSet::new(chain);
    utxo_set.reindex();
    assert_eq!(balance(&utxo_set, &a), 10);
    assert_eq!(balance(&utxo_set, &b), 0);
    let transaction = Transaction::utxo_transaction(&a, &b, 3, &utxo_set, &wallets).unwrap();
    assert_eq!(transaction.verify(utxo_set.get_blockchain()), Ok(true));
    let coinbase = Transaction::coinbase_tx(&a).unwrap();
    let block = utxo_set.get_blockchain_mut().mine_block(&[transaction, coinbase]).unwrap();
    utxo_set.update(&block);
    assert_eq!(utxo_set.get_blockchain().get_best_height(), 1);
    assert_eq!(utxo_set.get_blockchain().get_latest_blk_hash(), block.get_hash());
    assert_eq!(block.get_height(), 1);
    assert_eq!(block.get_transactions().len(), 2);
    assert!(!block.get_transactions()[0].is_coinbase());
    assert!(block.get_transactions()[1].is_coinbase());
    assert_eq!(balance(&utxo_set, &b), 3);
    assert_eq!(balance(&utxo_set, &a), 17);
}

#[test]
fn a_transfer_spends_what_was_picked_and_returns_the_change() {
    let mut wallets = Wallets::new();
    let a = wallets.create_wallets().unwrap();
    let b = wallets.create_wallets().unwrap();
    let chain = Blockchain::init(vec![], None, &a).unwrap();
    let genesis_coinbase = chain.get_blocks()[0].get_transactions()[0].clone();
    let mut utxo_set = UTXOSet::new(chain);
    utxo_set.reindex();
    let transaction = Transaction::utxo_transaction(&a, &b, 3, &utxo_set, &wallets).unwrap();
    assert!(!transaction.is_coinbase());
    assert_eq!(transaction.get_vin().len(), 1);
    let input = &transaction.get_vin()[0];
    assert_eq!(input.get_txid(), genesis_coinbase.get_id());
    assert_eq!(input.get_vout(), 0);
    assert_eq!(input.get_pub_key(), wallets.get_wallet(&a).unwrap().get_pub_key());
    assert_eq!(input.get_signature().len(), 64);
    assert_eq!(transaction.get_vout().len(), 2);
    assert_eq!(transaction.get_vout()[0].get_value(), 3);
    assert_eq!(
        transaction.get_vout()[0].get_pub_key_hash().to_vec(),
        address_key_hash(&b).unwrap()
    );
    assert_eq!(transaction.get_vout()[1].get_value(), 7);
    assert_eq!(
        transaction.get_vout()[1].get_pub_key_hash().to_vec(),
        address_key_hash(&a).unwrap()
    );
    let unsigned = Transaction::from_parts(
        vec![],
        vec![TxInput::from_parts(
            input.get_txid().to_vec(),
            0,
            vec![],
            input.get_pub_key().to_vec(),
        )],
        transaction.get_vout().to_vec(),
    );
    assert_eq!(Some(transaction.get_id().to_vec()), unsigned.hash());
    let exact = Transaction::utxo_transaction(&a, &b, 10, &utxo_set, &wallets).unwrap();
    assert_eq!(exact.get_vout().len(), 1);
    assert_eq!(exact.get_vout()[0].get_value(), 10);
}

#[test]
fn insufficient_funds() {
    let mut wallets = Wallets::new();
    let a = wallets.create_wallets().unwrap();
    let b = wallets.create_wallets().unwrap();
    let chain = Blockchain::init(vec![], None, &a).unwrap();
    let before = contents(&chain);
    let mut utxo_set = UTXOSet::new(chain);
    utxo_set.reindex();
    assert_eq!(balance(&utxo_set, &a), 10);
    assert!(matches!(
        Transaction::utxo_transaction(&a, &b, 11, &utxo_set, &wallets),
        Err(BlockchainError::InsufficientFunds)
    ));
    assert!(matches!(
        Transaction::utxo_transaction(&b, &a, 1, &utxo_set, &wallets),
        Err(BlockchainError::InsufficientFunds)
    ));
    assert_eq!(contents(utxo_set.get_blockchain()), before);
    assert_eq!(balance(&utxo_set, &a), 10);
    assert_eq!(utxo_set.count_transaction(), 1);
    let mut held = wallets.get_addresses();
    held.sort();
    let mut expected = vec![a.clone(), b.clone()];
    expected.sort();
    assert_eq!(held, expected);
}

#[test]
fn a_transfer_of_nothing_spends_nothing_and_needs_no_signature() {
    let mut wallets = Wallets::new();
    let a = wallets.create_wallets().unwrap();
    let b = wallets.create_wallets().unwrap();
    let mut chain = Blockchain::init(vec![], None, &a).unwrap();
    let mut utxo_set = UTXOSet::new(chain.clone());
    utxo_set.reindex();
    let transaction = Transaction::utxo_transaction(&a, &b, 0, &utxo_set, &wallets).unwrap();
    assert!(transaction.get_vin().is_empty());
    assert_eq!(transaction.get_vout().len(), 1);
    assert_eq!(transaction.get_vout()[0].get_value(), 0);
    assert_eq!(
        transaction.get_vout()[0].get_pub_key_hash().to_vec(),
        address_key_hash(&b).unwrap()
    );
    assert_eq!(transaction.get_id().len(), 32);
    assert_eq!(transaction.verify(&chain), Ok(true));
    let poor = Transaction::utxo_transaction(&b, &a, 0, &utxo_set, &wallets).unwrap();
    assert!(poor.get_vin().is_empty());
    let mut unsigned = Transaction::from_parts(vec![], vec![], vec![]);
    assert_eq!(unsigned.sign(&chain, &[1, 2, 3]), Ok(()));
    assert!(chain.mine_block(&[transaction]).is_ok());
}

#[test]
fn a_transfer_needs_a_wallet_and_addresses() {
    let mut wallets = Wallets::new();
    let a = wallets.create_wallets().unwrap();
    let b = wallets.create_wallets().unwrap();
    let chain = Blockchain::init(vec![], None, &a).unwrap();
    let mut utxo_set = UTXOSet::new(chain);
    utxo_set.reindex();
    let strangers = Wallets::new();
    assert!(matches!(
        Transaction::utxo_transaction(&a, &b, 3, &utxo_set, &strangers),
        Err(BlockchainError::WalletNotFound)
    ));
    assert!(matches!(
        Transaction::utxo_transaction(&a, "0OIl", 3, &utxo_set, &wallets),
        Err(BlockchainError::InvalidAddress)
    ));
    assert!(matches!(
        Transaction::utxo_transaction(&a, &b, -3, &utxo_set, &wallets),
        Err(BlockchainError::InvalidTransaction)
    ));
}

#[test]
fn reject_invalid_signature() {
    let mut wallets = Wallets::new();
    let a = wallets.create_wallets().unwrap();
    let b = wallets.create_wallets().unwrap();
    let mut chain = Blockchain::init(vec![], None, &a).unwrap();
    let mut utxo_set = UTXOSet::new(chain.clone());
    utxo_set.reindex();
    let transaction = Transaction::utxo_transaction(&a, &b, 3, &utxo_set, &wallets).unwrap();
    let bad = tampered(&transaction);
    assert_eq!(bad.verify(&chain), Ok(false));
    let before = contents(&chain);
    let coinbase = Transaction::coinbase_tx(&a).unwrap();
    assert!(matches!(
        chain.mine_block(&[bad, coinbase.clone()]),
        Err(BlockchainError::InvalidTransaction)
    ));
    assert_eq!(contents(&chain), before);
    assert_eq!(chain.get_best_height(), 0);
    assert!(chain.mine_block(&[transaction, coinbase]).is_ok());
    assert_eq!(chain.get_best_height(), 1);
}

#[test]
fn a_transaction_that_spends_what_the_ledger_does_not_hold_is_an_error() {
    let mut wallets = Wallets::new();
    let a = wallets.create_wallets().unwrap();
    let mut chain = Blockchain::init(vec![], None, &a).unwrap();
    let genesis_coinbase = chain.get_blocks()[0].get_transactions()[0].clone();
    let key = wallets.get_wallet(&a).unwrap().get_pub_key().to_vec();
    let unknown = Transaction::from_parts(
        vec![1],
        vec![TxInput::from_parts(vec![9; 32], 0, vec![0; 64], key.clone())],
        vec![],
    );
    assert_eq!(unknown.verify(&chain), Err(BlockchainError::InvalidTransaction));
    let out_of_range = Transaction::from_parts(
        vec![1],
        vec![TxInput::from_parts(genesis_coinbase.get_id().to_vec(), 1, vec![0; 64], key.clone())],
        vec![],
    );
    assert_eq!(out_of_range.verify(&chain), Err(BlockchainError::InvalidTransaction));
    let unsigned = Transaction::from_parts(
        vec![1],
        vec![TxInput::from_parts(genesis_coinbase.get_id().to_vec(), 0, vec![], key)],
        vec![],
    );
    assert_eq!(unsigned.verify(&chain), Ok(false));
    assert!(matches!(chain.mine_block(&[unknown]), Err(BlockchainError::InvalidTransaction)));
    let mut to_sign = unsigned.clone();
    let pkcs8 = wallets.get_wallet(&a).unwrap().get_pkcs8().to_vec();
    assert_eq!(to_sign.sign(&chain, &pkcs8), Ok(()));
    assert_eq!(to_sign.verify(&chain), Ok(true));
    let mut dangling = Transaction::from_parts(
        vec![1],
        vec![TxInput::from_parts(vec![9; 32], 0, vec![], vec![])],
        vec![],
    );
    assert_eq!(dangling.sign(&chain, &pkcs8), Err(BlockchainError::InvalidTransaction));
    assert!(dangling.get_vin()[0].get_signature().is_empty());
    let mut keyless = unsigned.clone();
    assert_eq!(keyless.sign(&chain, &[1, 2, 3]), Err(BlockchainError::CryptoError));
}

#[test]
fn a_coinbase_verifies_against_any_ledger() {
    let mut wallets = Wallets::new();
    let a = wallets.create_wallets().unwrap();
    let chain = Blockchain::init(vec![], None, &a).unwrap();
    let coinbase = Transaction::coinbase_tx(&a).unwrap();
    assert_eq!(coinbase.verify(&chain), Ok(true));
}

#[test]
fn fork_choice() {
    let mut wallets = Wallets::new();
    let a = wallets.create_wallets().unwrap();
    let mut chain = Blockchain::init(vec![], None, &a).unwrap();
    let coinbase = Transaction::coinbase_tx(&a).unwrap();
    chain.mine_block(&[coinbase]).unwrap();
    let tip = chain.get_latest_blk_hash();
    let height = chain.get_best_height();
    assert_eq!(height, 1);
    let genesis_hash = chain.get_blocks()[0].get_hash().to_string();
    let same_height =
        Block::new(genesis_hash, &[Transaction::coinbase_tx(&a).unwrap()], height).unwrap();
    chain.add_block(&same_height);
    assert_eq!(chain.get_latest_blk_hash(), tip);
    assert_eq!(chain.get_best_height(), height);
    assert!(chain.get_block(same_height.get_hash().as_bytes()).is_some());
    assert_eq!(chain.get_blocks().len(), 3);
    let higher =
        Block::new(tip.clone(), &[Transaction::coinbase_tx(&a).unwrap()], height + 1).unwrap();
    chain.add_block(&higher);
    assert_eq!(chain.get_latest_blk_hash(), higher.get_hash());
    assert_eq!(chain.get_best_height(), height + 1);
    let before = contents(&chain);
    chain.add_block(&higher);
    chain.add_block(&same_height);
    assert_eq!(contents(&chain), before);
    let lower = Block::new(String::from("x"), &[], 0).unwrap();
    chain.add_block(&lower);
    assert_eq!(chain.get_latest_blk_hash(), higher.get_hash());
    assert_eq!(chain.get_blocks().len(), 5);
}

#[test]
fn the_chain_is_walked_from_the_tip_back() {
    let mut wallets = Wallets::new();
    let a = wallets.create_wallets().unwrap();
    let mut chain = Blockchain::init(vec![], None, &a).unwrap();
    let first = chain.mine_block(&[Transaction::coinbase_tx(&a).unwrap()]).unwrap();
    let second = chain.mine_block(&[Transaction::coinbase_tx(&a).unwrap()]).unwrap();
    let side = Block::new(String::from("nowhere"), &[], 1).unwrap();
    chain.add_block(&side);
    let genesis_hash = chain.get_blocks()[0].get_hash().to_string();
    let mut iterator = chain.iterator();
    let mut seen: Vec<(String, usize)> = vec![];
    loop {
        match iterator.next() {
            Some(block) => seen.push((block.get_hash().to_string(), block.get_height())),
            None => break,
        }
    }
    assert!(iterator.next().is_none());
    assert_eq!(
        seen,
        vec![
            (second.get_hash().to_string(), 2),
            (first.get_hash().to_string(), 1),
            (genesis_hash.clone(), 0),
        ]
    );
    assert_eq!(
        chain.get_block_hashes(),
        vec![
            second.get_hash_bytes(),
            first.get_hash_bytes(),
            genesis_hash.clone().into_bytes(),
        ]
    );
    assert_eq!(first.get_prev_block_hash(), genesis_hash);
    assert_eq!(second.get_prev_block_hash(), first.get_hash());
    assert!(chain.get_block(b"nothing").is_none());
    assert_eq!(chain.get_block(side.get_hash().as_bytes()).unwrap().serialize(), side.serialize());
}

#[test]
fn a_walk_over_a_circle_ends() {
    let mut wallets = Wallets::new();
    let a = wallets.create_wallets().unwrap();
    let mut chain = Blockchain::init(vec![], None, &a).unwrap();
    let genesis = chain.get_blocks()[0].clone();
    let looped = Block::from_parts(
        genesis.get_timestamp(),
        String::from("tip"),
        String::from("tip"),
        vec![],
        0,
        5,
    )
    .unwrap();
    chain.add_block(&looped);
    assert_eq!(chain.get_latest_blk_hash(), "tip");
    assert_eq!(chain.get_block_hashes().len(), 2);
    assert!(chain.find_transaction(&[1, 2, 3]).is_none());
}

#[test]
fn transactions_are_found_by_id() {
    let mut wallets = Wallets::new();
    let a = wallets.create_wallets().unwrap();
    let mut chain = Blockchain::init(vec![], None, &a).unwrap();
    let coinbase = Transaction::coinbase_tx(&a).unwrap();
    chain.mine_block(&[coinbase.clone()]).unwrap();
    let genesis_coinbase = chain.get_blocks()[0].get_transactions()[0].clone();
    assert_eq!(
        chain.find_transaction(coinbase.get_id()).unwrap().serialize(),
        coinbase.serialize()
    );
    assert_eq!(
        chain.find_transaction(genesis_coinbase.get_id()).unwrap().serialize(),
        genesis_coinbase.serialize()
    );
    assert!(chain.find_transaction(&[0; 32]).is_none());
    let side = Block::new(String::from("nowhere"), &[Transaction::coinbase_tx(&a).unwrap()], 1)
        .unwrap();
    chain.add_block(&side);
    assert!(chain.find_transaction(side.get_transactions()[0].get_id()).is_none());
}

#[test]
fn the_tip_can_be_set_to_a_known_block_only() {
    let mut wallets = Wallets::new();
    let a = wallets.create_wallets().unwrap();
    let mut chain = Blockchain::init(vec![], None, &a).unwrap();
    let genesis_hash = chain.get_latest_blk_hash();
    chain.mine_block(&[]).unwrap();
    let tip = chain.get_latest_blk_hash();
    assert!(!chain.set_latest_blk_hash("unknown"));
    assert_eq!(chain.get_latest_blk_hash(), tip);
    assert!(chain.set_latest_blk_hash(&genesis_hash));
    assert_eq!(chain.get_latest_blk_hash(), genesis_hash);
    assert_eq!(chain.get_best_height(), 0);
}

#[test]
fn tip_validity() {
    let mut wallets = Wallets::new();
    let a = wallets.create_wallets().unwrap();
    let mut chain = Blockchain::init(vec![], None, &a).unwrap();
    for round in 0..3 {
        let tip = chain.get_block(chain.get_latest_blk_hash().as_bytes()).unwrap();
        assert_eq!(tip.get_height(), chain.get_best_height());
        assert_eq!(tip.get_height(), round);
        chain.mine_block(&[Transaction::coinbase_tx(&a).unwrap()]).unwrap();
    }
    let side = Block::new(String::from("elsewhere"), &[], 9).unwrap();
    chain.add_block(&side);
    let tip = chain.get_block(chain.get_latest_blk_hash().as_bytes()).unwrap();
    assert_eq!(tip.get_hash(), side.get_hash());
    assert_eq!(chain.get_best_height(), 9);
    let lower = Block::new(String::from("elsewhere"), &[], 4).unwrap();
    chain.add_block(&lower);
    let tip = chain.get_block(chain.get_latest_blk_hash().as_bytes()).unwrap();
    assert_eq!(tip.get_height(), chain.get_best_height());
    assert_eq!(chain.get_best_height(), 9);
    assert!(chain.is_well_formed());
    assert!(!chain.set_latest_blk_hash("unknown"));
    assert!(chain.is_well_formed());
}

#[test]
fn chain_reachability() {
    let mut wallets = Wallets::new();
    let a = wallets.create_wallets().unwrap();
    let mut chain = Blockchain::init(vec![], None, &a).unwrap();
    for _ in 0..4 {
        chain.mine_block(&[Transaction::coinbase_tx(&a).unwrap()]).unwrap();
    }
    chain.add_block(&Block::new(String::from("elsewhere"), &[], 2).unwrap());
    let hashes = chain.get_block_hashes();
    assert_eq!(hashes.len(), 5);
    assert!(hashes.len() <= chain.get_blocks().len());
    for (place, hash) in hashes.iter().enumerate() {
        let block = chain.get_block(hash).unwrap();
        assert_eq!(block.get_height(), 4 - place);
        if place + 1 < hashes.len() {
            assert_eq!(block.get_prev_block_hash().into_bytes(), hashes[place + 1]);
            assert!(chain.get_block(block.get_prev_block_hash().as_bytes()).is_some());
        } else {
            assert_eq!(block.get_prev_block_hash(), "None");
            assert!(chain.get_block(b"None").is_none());
        }
    }
}

#[test]
fn what_is_mined_verified_against_the_ledger_before() {
    let mut wallets = Wallets::new();
    let a = wallets.create_wallets().unwrap();
    let b = wallets.create_wallets().unwrap();
    let chain = Blockchain::init(vec![], None, &a).unwrap();
    let mut utxo_set = UTXOSet::new(chain);
    utxo_set.reindex();
    let pay = Transaction::utxo_transaction(&a, &b, 6, &utxo_set, &wallets).unwrap();
    let before = utxo_set.get_blockchain().clone();
    let block = utxo_set.get_blockchain_mut().mine_block(&[pay]).unwrap();
    for transaction in block.get_transactions() {
        assert_eq!(transaction.verify(&before), Ok(true));
    }
    assert!(block.get_hash().starts_with("00"));
    for stored in utxo_set.get_blockchain().get_blocks() {
        assert!(stored.get_hash().starts_with("00"));
    }
}
