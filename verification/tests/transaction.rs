use mini_blockchain::error::BlockchainError;
use mini_blockchain::helpers::sha256_digest;
use mini_blockchain::transaction::{Transaction, TxInput, TxOutput, INCENTIVE};
use mini_blockchain::wallets::{address_key_hash, hash_pub_key, Wallet};

fn fresh_address() -> String {
    Wallet::new().unwrap().get_address()
}

fn input_tuple(input: &TxInput) -> (Vec<u8>, u64, Vec<u8>, Vec<u8>) {
    (
        input.get_txid().to_vec(),
        input.get_vout() as u64,
        input.get_signature().to_vec(),
        input.get_pub_key().to_vec(),
    )
}

fn output_tuple(output: &TxOutput) -> (i32, Vec<u8>) {
    (output.get_value(), output.get_pub_key_hash().to_vec())
}

fn reference_encoding(tx: &Transaction, id: Vec<u8>) -> Vec<u8> {
    let vin: Vec<(Vec<u8>, u64, Vec<u8>, Vec<u8>)> = tx.get_vin().iter().map(input_tuple).collect();
    let vout: Vec<(i32, Vec<u8>)> = tx.get_vout().iter().map(output_tuple).collect();
    bincode::serialize(&(id, vin, vout)).unwrap()
}

#[test]
fn an_input_starts_unsigned() {
    let input = TxInput::new(&[1, 2, 3], 7);
    assert_eq!(input.get_txid(), &[1, 2, 3]);
    assert_eq!(input.get_vout(), 7);
    assert!(input.get_signature().is_empty());
    assert!(input.get_pub_key().is_empty());
    let blank = TxInput::default();
    assert!(blank.get_txid().is_empty());
    assert_eq!(blank.get_vout(), 0);
}

#[test]
fn an_input_uses_the_key_that_hashes_to_the_lock() {
    let wallet = Wallet::new().unwrap();
    let input = TxInput::from_parts(vec![9], 0, vec![], wallet.get_pub_key().to_vec());
    let hash = hash_pub_key(wallet.get_pub_key());
    assert!(input.uses_key(&hash));
    assert!(!input.uses_key(&[0u8; 20]));
}

#[test]
fn an_output_is_locked_to_the_key_hash_of_its_address() {
    let wallet = Wallet::new().unwrap();
    let address = wallet.get_address();
    let output = TxOutput::new(5, &address).unwrap();
    let hash = hash_pub_key(wallet.get_pub_key());
    assert_eq!(output.get_value(), 5);
    assert_eq!(output.get_pub_key_hash(), hash.as_slice());
    assert!(output.is_locked_with_key(&hash));
    assert!(!output.is_locked_with_key(&[]));
    assert!(!output.is_locked_with_key(&hash[1..]));
}

#[test]
fn an_output_refuses_bad_addresses_and_negative_amounts() {
    let address = fresh_address();
    assert!(matches!(TxOutput::new(5, "0OIl"), Err(BlockchainError::InvalidAddress)));
    assert!(matches!(TxOutput::new(5, "1ADDR"), Err(BlockchainError::InvalidAddress)));
    assert!(matches!(TxOutput::new(-1, "0OIl"), Err(BlockchainError::InvalidAddress)));
    assert!(matches!(TxOutput::new(-1, &address), Err(BlockchainError::InvalidTransaction)));
    assert!(TxOutput::new(0, &address).is_ok());
    assert!(TxOutput::from_parts(-1, vec![]).is_none());
    let output = TxOutput::from_parts(i32::MAX, vec![1, 2]).unwrap();
    assert_eq!(output.get_value(), i32::MAX);
    assert_eq!(output.get_pub_key_hash(), &[1, 2]);
}

#[test]
fn a_coinbase_pays_the_incentive_to_the_address() {
    let address = fresh_address();
    let tx = Transaction::coinbase_tx(&address).unwrap();
    assert!(tx.is_coinbase());
    assert_eq!(tx.get_vin().len(), 1);
    assert!(tx.get_vin()[0].get_txid().is_empty());
    assert_eq!(tx.get_vin()[0].get_vout(), 0);
    assert!(tx.get_vin()[0].get_pub_key().is_empty());
    assert_eq!(tx.get_vin()[0].get_signature().len(), 16);
    assert_eq!(tx.get_vout().len(), 1);
    assert_eq!(INCENTIVE, 10);
    assert_eq!(tx.get_vout()[0].get_value(), 10);
    assert_eq!(
        tx.get_vout()[0].get_pub_key_hash().to_vec(),
        address_key_hash(&address).unwrap()
    );
    assert_eq!(tx.get_id().len(), 32);
    assert_eq!(tx.get_id_bytes(), tx.get_id().to_vec());
}

#[test]
fn two_coinbases_to_one_address_differ() {
    let address = fresh_address();
    let first = Transaction::coinbase_tx(&address).unwrap();
    let second = Transaction::coinbase_tx(&address).unwrap();
    assert_ne!(first.get_id(), second.get_id());
}

#[test]
fn a_coinbase_with_a_given_tag_is_determined() {
    let address = fresh_address();
    let first = Transaction::coinbase_with_tag(&address, vec![7u8; 16]).unwrap();
    let second = Transaction::coinbase_with_tag(&address, vec![7u8; 16]).unwrap();
    assert_eq!(first.serialize(), second.serialize());
    assert_eq!(first.get_vin()[0].get_signature(), &[7u8; 16]);
}

#[test]
fn a_coinbase_to_no_address_is_refused() {
    assert!(matches!(Transaction::coinbase_tx("0OIl"), Err(BlockchainError::InvalidAddress)));
    assert!(matches!(Transaction::coinbase_tx(""), Err(BlockchainError::InvalidAddress)));
}

#[test]
fn coinbase_detection() {
    let output = TxOutput::from_parts(1, vec![1]).unwrap();
    let one_keyless = Transaction::from_parts(
        vec![],
        vec![TxInput::from_parts(vec![1], 2, vec![3], vec![])],
        vec![output.clone()],
    );
    assert!(one_keyless.is_coinbase());
    let one_keyed = Transaction::from_parts(
        vec![],
        vec![TxInput::from_parts(vec![], 0, vec![], vec![1])],
        vec![output.clone()],
    );
    assert!(!one_keyed.is_coinbase());
    let none = Transaction::from_parts(vec![], vec![], vec![output.clone()]);
    assert!(!none.is_coinbase());
    let two = Transaction::from_parts(
        vec![],
        vec![TxInput::new(&[], 0), TxInput::new(&[], 0)],
        vec![output],
    );
    assert!(!two.is_coinbase());
}

#[test]
fn the_encoding_is_fixed_width_and_length_prefixed() {
    let tx = Transaction::from_parts(
        vec![0xaa, 0xbb],
        vec![TxInput::from_parts(vec![1], 2, vec![3, 4], vec![5])],
        vec![TxOutput::from_parts(258, vec![9]).unwrap()],
    );
    let expected: Vec<u8> = vec![
        2, 0, 0, 0, 0, 0, 0, 0, 0xaa, 0xbb, // id
        1, 0, 0, 0, 0, 0, 0, 0, // one input
        1, 0, 0, 0, 0, 0, 0, 0, 1, // txid
        2, 0, 0, 0, 0, 0, 0, 0, // vout
        2, 0, 0, 0, 0, 0, 0, 0, 3, 4, // signature
        1, 0, 0, 0, 0, 0, 0, 0, 5, // key
        1, 0, 0, 0, 0, 0, 0, 0, // one output
        2, 1, 0, 0, // value
        1, 0, 0, 0, 0, 0, 0, 0, 9, // key hash
    ];
    assert_eq!(tx.serialize(), expected);
}

#[test]
fn the_encoding_is_that_of_bincode() {
    let address = fresh_address();
    let coinbase = Transaction::coinbase_tx(&address).unwrap();
    assert_eq!(coinbase.serialize(), reference_encoding(&coinbase, coinbase.get_id().to_vec()));
    let wide = Transaction::from_parts(
        vec![1; 40],
        vec![
            TxInput::from_parts(vec![2; 32], usize::MAX, vec![3; 64], vec![4; 65]),
            TxInput::new(&[], 0),
        ],
        vec![
            TxOutput::from_parts(i32::MAX, vec![5; 20]).unwrap(),
            TxOutput::from_parts(0, vec![]).unwrap(),
        ],
    );
    assert_eq!(wide.serialize(), reference_encoding(&wide, vec![1; 40]));
    let empty = Transaction::from_parts(vec![], vec![], vec![]);
    assert_eq!(empty.serialize(), reference_encoding(&empty, vec![]));
    assert_eq!(empty.serialize(), vec![0u8; 24]);
}

#[test]
fn the_id_is_the_digest_of_the_encoding_without_id() {
    let address = fresh_address();
    let coinbase = Transaction::coinbase_tx(&address).unwrap();
    let cleared = reference_encoding(&coinbase, vec![]);
    assert_eq!(coinbase.get_id().to_vec(), sha256_digest(&cleared));
    assert_eq!(coinbase.hash(), Some(sha256_digest(&cleared)));
    let other = Transaction::from_parts(
        vec![1, 2, 3],
        vec![TxInput::from_parts(vec![2; 32], 1, vec![3; 64], vec![4; 65])],
        vec![TxOutput::from_parts(4, vec![5; 20]).unwrap()],
    );
    assert_eq!(other.hash(), Some(sha256_digest(&reference_encoding(&other, vec![]))));
    assert_eq!(other.hash().unwrap().len(), 32);
}

#[test]
fn a_trimmed_copy_keeps_all_but_signatures_and_keys() {
    let tx = Transaction::from_parts(
        vec![1, 2, 3],
        vec![
            TxInput::from_parts(vec![2; 32], 1, vec![3; 64], vec![4; 65]),
            TxInput::from_parts(vec![6; 32], 0, vec![], vec![7; 65]),
        ],
        vec![TxOutput::from_parts(4, vec![5; 20]).unwrap()],
    );
    let copy = tx.trimmed_copy();
    assert_eq!(copy.get_id(), tx.get_id());
    assert_eq!(copy.get_vin().len(), 2);
    for (trimmed, input) in copy.get_vin().iter().zip(tx.get_vin()) {
        assert_eq!(trimmed.get_txid(), input.get_txid());
        assert_eq!(trimmed.get_vout(), input.get_vout());
        assert!(trimmed.get_signature().is_empty());
        assert!(trimmed.get_pub_key().is_empty());
    }
    assert_eq!(copy.get_vout().len(), 1);
    assert_eq!(copy.get_vout()[0].get_value(), 4);
    assert_eq!(copy.get_vout()[0].get_pub_key_hash(), &[5; 20]);
    let clone = tx.clone();
    assert_eq!(clone.serialize(), tx.serialize());
}
