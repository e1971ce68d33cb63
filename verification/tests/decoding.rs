use mini_blockchain::blocks::Block;
use mini_blockchain::transaction::{
    deserialize_outputs, serialize_outputs, Transaction, TxInput, TxOutput,
};
use mini_blockchain::wallets::Wallet;

fn sample() -> Transaction {
    Transaction::from_parts(
        vec![1; 32],
        vec![
            TxInput::from_parts(vec![2; 32], 258, vec![3; 64], vec![4; 65]),
            TxInput::new(&[9], usize::MAX),
        ],
        vec![
            TxOutput::from_parts(i32::MAX, vec![5; 20]).unwrap(),
            TxOutput::from_parts(0, vec![]).unwrap(),
        ],
    )
}

fn tuple_of(
    tx: &Transaction,
) -> (Vec<u8>, Vec<(Vec<u8>, u64, Vec<u8>, Vec<u8>)>, Vec<(i32, Vec<u8>)>) {
    (
        tx.get_id().to_vec(),
        tx.get_vin()
            .iter()
            .map(|i| {
                (
                    i.get_txid().to_vec(),
                    i.get_vout() as u64,
                    i.get_signature().to_vec(),
                    i.get_pub_key().to_vec(),
                )
            })
            .collect(),
        tx.get_vout().iter().map(|o| (o.get_value(), o.get_pub_key_hash().to_vec())).collect(),
    )
}

#[test]
fn a_transaction_is_read_back_from_its_encoding() {
    let tx = sample();
    let bytes = tx.serialize();
    let back = Transaction::deserialize(&bytes).unwrap();
    assert_eq!(tuple_of(&back), tuple_of(&tx));
    assert_eq!(back.serialize(), bytes);
    let coinbase = Transaction::coinbase_tx(&Wallet::new().unwrap().get_address()).unwrap();
    let back = Transaction::deserialize(&coinbase.serialize()).unwrap();
    assert_eq!(tuple_of(&back), tuple_of(&coinbase));
    let empty = Transaction::from_parts(vec![], vec![], vec![]);
    assert_eq!(tuple_of(&Transaction::deserialize(&empty.serialize()).unwrap()), tuple_of(&empty));
}

#[test]
fn a_transaction_is_read_from_what_bincode_wrote() {
    let tx = sample();
    let bytes = bincode::serialize(&tuple_of(&tx)).unwrap();
    let back = Transaction::deserialize(&bytes).unwrap();
    assert_eq!(tuple_of(&back), tuple_of(&tx));
    let again: (Vec<u8>, Vec<(Vec<u8>, u64, Vec<u8>, Vec<u8>)>, Vec<(i32, Vec<u8>)>) =
        bincode::deserialize(&tx.serialize()).unwrap();
    assert_eq!(again, tuple_of(&tx));
}

#[test]
fn bytes_behind_a_transaction_are_left_alone() {
    let tx = sample();
    let mut bytes = tx.serialize();
    bytes.extend([1, 2, 3]);
    assert_eq!(tuple_of(&Transaction::deserialize(&bytes).unwrap()), tuple_of(&tx));
}

#[test]
fn a_cut_encoding_is_no_transaction() {
    let bytes = sample().serialize();
    for cut in [0, 1, 7, 8, 39, 40, 47, 48, bytes.len() - 1] {
        assert!(Transaction::deserialize(&bytes[..cut]).is_none());
    }
    assert!(Transaction::deserialize(&[]).is_none());
}

#[test]
fn a_length_beyond_the_bytes_is_no_transaction() {
    let mut bytes = vec![0xffu8; 8];
    bytes.extend([0u8; 64]);
    assert!(Transaction::deserialize(&bytes).is_none());
    let mut many_inputs = vec![0u8; 8];
    many_inputs.extend(u64::MAX.to_le_bytes());
    many_inputs.extend([0u8; 64]);
    assert!(Transaction::deserialize(&many_inputs).is_none());
}

#[test]
fn a_negative_amount_is_no_output() {
    let bytes = bincode::serialize(&(
        Vec::<u8>::new(),
        Vec::<(Vec<u8>, u64, Vec<u8>, Vec<u8>)>::new(),
        vec![(-1i32, vec![1u8])],
    ))
    .unwrap();
    assert!(Transaction::deserialize(&bytes).is_none());
    let bytes = bincode::serialize(&vec![(5i32, vec![1u8]), (i32::MIN, vec![])]).unwrap();
    assert!(deserialize_outputs(&bytes).is_none());
}

#[test]
fn a_list_of_outputs_is_read_back() {
    let outputs = vec![
        TxOutput::from_parts(7, vec![1, 2, 3]).unwrap(),
        TxOutput::from_parts(0x0102_0304, vec![]).unwrap(),
    ];
    let bytes = serialize_outputs(&outputs);
    let expected =
        bincode::serialize(&vec![(7i32, vec![1u8, 2, 3]), (0x0102_0304i32, vec![])]).unwrap();
    assert_eq!(bytes, expected);
    assert_eq!(&bytes[8..12], &[7, 0, 0, 0]);
    assert_eq!(&bytes[23..27], &[4, 3, 2, 1]);
    let back = deserialize_outputs(&bytes).unwrap();
    assert_eq!(back.len(), 2);
    assert_eq!(back[0].get_value(), 7);
    assert_eq!(back[0].get_pub_key_hash(), &[1, 2, 3]);
    assert_eq!(back[1].get_value(), 0x0102_0304);
    assert!(back[1].get_pub_key_hash().is_empty());
    assert_eq!(serialize_outputs(&vec![]), vec![0u8; 8]);
    assert!(deserialize_outputs(&[0u8; 8]).unwrap().is_empty());
    assert!(deserialize_outputs(&[0u8; 7]).is_none());
}

#[test]
fn a_block_is_read_back_from_its_encoding() {
    let address = Wallet::new().unwrap().get_address();
    let block =
        Block::new(String::from("00ab"), &[sample(), Transaction::coinbase_tx(&address).unwrap()], 7)
            .unwrap();
    let bytes = block.serialize();
    let back = Block::deserialize(&bytes).unwrap();
    assert_eq!(back.get_timestamp(), block.get_timestamp());
    assert_eq!(back.get_prev_block_hash(), block.get_prev_block_hash());
    assert_eq!(back.get_hash(), block.get_hash());
    assert_eq!(back.get_nonce(), block.get_nonce());
    assert_eq!(back.get_height(), 7);
    assert_eq!(back.get_transactions().len(), 2);
    assert_eq!(tuple_of(&back.get_transactions()[0]), tuple_of(&sample()));
    assert_eq!(back.serialize(), bytes);
    assert!(Block::deserialize(&bytes[..bytes.len() - 1]).is_none());
    assert!(Block::deserialize(&bytes[..20]).is_none());
}

#[test]
fn a_block_is_read_from_what_bincode_wrote() {
    let bytes = bincode::serialize(&(
        -12i64,
        String::from("pr\u{e9}c\u{e9}dent"),
        String::from("\u{4e2d}\u{6587}"),
        vec![tuple_of(&sample())],
        i64::MIN,
        3u64,
    ))
    .unwrap();
    let block = Block::deserialize(&bytes).unwrap();
    assert_eq!(block.get_timestamp(), -12);
    assert_eq!(block.get_prev_block_hash(), "pr\u{e9}c\u{e9}dent");
    assert_eq!(block.get_hash(), "\u{4e2d}\u{6587}");
    assert_eq!(block.get_nonce(), i64::MIN);
    assert_eq!(block.get_height(), 3);
    assert_eq!(block.serialize(), bytes);
}

#[test]
fn a_hash_that_is_no_text_is_no_block() {
    let good = bincode::serialize(&(
        0i64,
        vec![b'a', b'b'],
        vec![b'c'],
        Vec::<u8>::new(),
        0i64,
        0u64,
    ))
    .unwrap();
    assert!(Block::deserialize(&good).is_some());
    let bad = bincode::serialize(&(
        0i64,
        vec![b'a', b'b'],
        vec![0xffu8, 0xfe],
        Vec::<u8>::new(),
        0i64,
        0u64,
    ))
    .unwrap();
    assert!(Block::deserialize(&bad).is_none());
}
