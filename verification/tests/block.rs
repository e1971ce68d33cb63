use mini_blockchain::blocks::Block;
use data_encoding::HEXLOWER;
use mini_blockchain::helpers::sha256_digest;
use mini_blockchain::proof_of_work::{ProofOfWork, MAX_NONCE, TARGET_BITS};
use mini_blockchain::transaction::{Transaction, TxInput, TxOutput};
use mini_blockchain::wallets::Wallet;

fn coinbase() -> Transaction {
    Transaction::coinbase_tx(&Wallet::new().unwrap().get_address()).unwrap()
}

fn preimage(block: &Block, nonce: i64) -> Vec<u8> {
    let mut ids: Vec<u8> = vec![];
    for tx in block.get_transactions() {
        ids.extend(tx.get_id());
    }
    let mut data: Vec<u8> = vec![];
    data.extend(block.get_prev_block_hash().as_bytes());
    data.extend(sha256_digest(&ids));
    data.extend(block.get_timestamp().to_be_bytes());
    data.extend(8i32.to_be_bytes());
    data.extend(nonce.to_be_bytes());
    data
}

fn transaction_tuple(
    tx: &Transaction,
) -> (Vec<u8>, Vec<(Vec<u8>, u64, Vec<u8>, Vec<u8>)>, Vec<(i32, Vec<u8>)>) {
    (
        tx.get_id().to_vec(),
        tx.get_vin()
            .iter()
            .map(|i| {
                (
                    i.get_txid().to_vec(),
                    i.get_vout() as u64,
                    i.get_signature().to_vec(),
                    i.get_pub_key().to_vec(),
                )
            })
            .collect(),
        tx.get_vout().iter().map(|o| (o.get_value(), o.get_pub_key_hash().to_vec())).collect(),
    )
}

#[test]
fn the_constants_of_the_search() {
    assert_eq!(TARGET_BITS, 8);
    assert_eq!(MAX_NONCE, i64::MAX);
}

#[test]
fn a_sealed_block_meets_the_target() {
    let tx = coinbase();
    let block = Block::new(String::from("previous"), &[tx.clone()], 3).unwrap();
    assert_eq!(block.get_prev_block_hash(), "previous");
    assert_eq!(block.get_height(), 3);
    assert_eq!(block.get_transactions().len(), 1);
    assert_eq!(block.get_transactions()[0].get_id(), tx.get_id());
    assert!(block.get_timestamp() > 0);
    let digest = sha256_digest(&preimage(&block, block.get_nonce()));
    assert_eq!(block.get_hash(), HEXLOWER.encode(&digest));
    assert_eq!(block.get_hash().len(), 64);
    assert!(block.get_hash().starts_with("00"));
    assert_eq!(digest[0], 0);
    assert_eq!(block.get_hash_bytes(), block.get_hash().as_bytes().to_vec());
}

#[test]
fn the_nonce_is_the_first_that_meets_the_target() {
    let block = Block::mine(1_700_000_000_000, String::from("None"), &[coinbase()], 0).unwrap();
    assert_eq!(block.get_timestamp(), 1_700_000_000_000);
    assert!(block.get_nonce() >= 0);
    for nonce in 0..block.get_nonce() {
        assert_ne!(sha256_digest(&preimage(&block, nonce))[0], 0);
    }
    assert_eq!(sha256_digest(&preimage(&block, block.get_nonce()))[0], 0);
}

#[test]
fn sealing_is_determined_by_timestamp_and_content() {
    let tx = coinbase();
    let first = Block::mine(42, String::from("abc"), &[tx.clone()], 1).unwrap();
    let second = Block::mine(42, String::from("abc"), &[tx.clone()], 9).unwrap();
    assert_eq!(first.get_nonce(), second.get_nonce());
    assert_eq!(first.get_hash(), second.get_hash());
    let third = Block::mine(43, String::from("abc"), &[tx], 1).unwrap();
    assert_ne!(first.get_hash(), third.get_hash());
}

#[test]
fn the_bytes_digested_for_a_nonce() {
    let block = Block::mine(-5, String::from("None"), &[coinbase(), coinbase()], 0).unwrap();
    let pow = ProofOfWork::new(block.clone());
    assert_eq!(pow.prepare_data(0), preimage(&block, 0));
    assert_eq!(pow.prepare_data(258), preimage(&block, 258));
    assert_eq!(pow.prepare_data(-1), preimage(&block, -1));
    let data = pow.prepare_data(258);
    assert_eq!(data.len(), 4 + 32 + 8 + 4 + 8);
    assert_eq!(&data[36..44], &[0xff, 0xff, 0xff, 0xff, 0xff, 0xff, 0xff, 0xfb]);
    assert_eq!(&data[44..48], &[0, 0, 0, 8]);
    assert_eq!(&data[48..], &[0, 0, 0, 0, 0, 0, 1, 2]);
    let (nonce, hash) = pow.run().unwrap();
    assert_eq!(nonce, block.get_nonce());
    assert_eq!(hash, block.get_hash());
}

#[test]
fn the_digest_of_the_transactions_is_over_their_ids_in_order() {
    let first = coinbase();
    let second = coinbase();
    let block = Block::new(String::from("p"), &[first.clone(), second.clone()], 1).unwrap();
    let mut ids = first.get_id().to_vec();
    ids.extend(second.get_id());
    assert_eq!(block.hash_transactions(), sha256_digest(&ids));
    let none = Block::new(String::from("p"), &[], 1).unwrap();
    assert_eq!(none.hash_transactions(), sha256_digest(&[]));
}

#[test]
fn a_genesis_block_has_no_block_before_it() {
    let tx = coinbase();
    let block = Block::generate_genesis_block(&tx).unwrap();
    assert_eq!(block.get_prev_block_hash(), "None");
    assert_eq!(block.get_height(), 0);
    assert_eq!(block.get_transactions().len(), 1);
    assert_eq!(block.get_transactions()[0].serialize(), tx.serialize());
    assert!(block.get_hash().starts_with("00"));
}

#[test]
fn the_encoding_of_a_block_is_that_of_bincode() {
    let spend = Transaction::from_parts(
        vec![1; 32],
        vec![TxInput::from_parts(vec![2; 32], 1, vec![3; 64], vec![4; 65])],
        vec![TxOutput::from_parts(4, vec![5; 20]).unwrap()],
    );
    let block = Block::new(String::from("00ab"), &[spend, coinbase()], 7).unwrap();
    let transactions: Vec<_> = block.get_transactions().iter().map(transaction_tuple).collect();
    let expected = bincode::serialize(&(
        block.get_timestamp(),
        block.get_prev_block_hash(),
        String::from(block.get_hash()),
        transactions,
        block.get_nonce(),
        block.get_height() as u64,
    ))
    .unwrap();
    assert_eq!(block.serialize(), expected);
}

#[test]
fn a_block_from_its_parts() {
    let block = Block::new(String::from("00ab"), &[coinbase()], 7).unwrap();
    let copy = Block::from_parts(
        block.get_timestamp(),
        block.get_prev_block_hash(),
        String::from(block.get_hash()),
        block.get_transactions().to_vec(),
        block.get_nonce(),
        block.get_height(),
    )
    .unwrap();
    assert_eq!(copy.serialize(), block.serialize());
    let negative = Block::from_parts(-1, String::new(), String::from("x"), vec![], -2, 0).unwrap();
    let expected =
        bincode::serialize(&(-1i64, String::new(), String::from("x"), Vec::<u8>::new(), -2i64, 0u64))
            .unwrap();
    assert_eq!(negative.serialize(), expected);
}
