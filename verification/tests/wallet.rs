use data_encoding::HEXLOWER;
use mini_blockchain::error::BlockchainError;
use mini_blockchain::helpers::{base58_decode, base58_encode, sha256_digest};
use mini_blockchain::wallets::{
    address_key_hash, checksum, convert_address, hash_pub_key, validate_address, Wallet, Wallets,
    ADDRESS_CHECK_SUM_LEN, VERSION,
};

#[test]
fn key_hash_of_a_known_key() {
    let pub_key = HEXLOWER
        .decode(b"0250863ad64a87ae8a2fe83c1af1a8403cb53f53e486d8511dad8a04887e5b2352")
        .unwrap();
    let hash = hash_pub_key(&pub_key);
    assert_eq!(HEXLOWER.encode(&hash), "f54a5851e9372b87810a8e60cdd2e7cfd80b6e31");
}

#[test]
fn address_of_a_known_key_hash() {
    let hash = HEXLOWER.decode(b"f54a5851e9372b87810a8e60cdd2e7cfd80b6e31").unwrap();
    let address = convert_address(&hash);
    assert_eq!(address, "1PMycacnJaSqwwJqjawXBErnLsZ7RkXUAs");
    assert!(validate_address(&address));
    assert_eq!(address_key_hash(&address), Some(hash));
}

#[test]
fn checksum_is_the_start_of_the_double_digest() {
    let payload = HEXLOWER.decode(b"00f54a5851e9372b87810a8e60cdd2e7cfd80b6e31").unwrap();
    let sum = checksum(&payload);
    assert_eq!(sum.len(), ADDRESS_CHECK_SUM_LEN);
    assert_eq!(HEXLOWER.encode(&sum), "c7f18fe8");
    let twice = sha256_digest(&sha256_digest(&payload));
    assert_eq!(sum, twice[0..4].to_vec());
}

#[test]
fn address_round_trip() {
    let wallet = Wallet::new().unwrap();
    let address = wallet.get_address();
    assert!(validate_address(&address));
    let payload = base58_decode(&address).unwrap();
    let hash = hash_pub_key(wallet.get_pub_key());
    assert_eq!(payload.len(), 25);
    assert_eq!(payload[0], VERSION);
    assert_eq!(payload[1..21].to_vec(), hash);
    assert_eq!(payload[21..].to_vec(), checksum(&payload[..21]));
    assert_eq!(convert_address(&hash), address);
    assert_eq!(address_key_hash(&address), Some(hash));
}

#[test]
fn addresses_that_are_none() {
    assert!(!validate_address(""));
    assert!(!validate_address("1"));
    assert!(!validate_address("1ADDR"));
    assert!(!validate_address("not base58 at all!"));
    assert!(!validate_address("0OIl"));
    assert_eq!(address_key_hash("1ADDR"), None);
    assert_eq!(address_key_hash("0OIl"), None);
}

#[test]
fn a_changed_address_is_invalid() {
    let wallet = Wallet::new().unwrap();
    let address = wallet.get_address();
    let mut payload = base58_decode(&address).unwrap();
    payload[5] ^= 0x01;
    assert!(!validate_address(&base58_encode(&payload)));
    let mut payload = base58_decode(&address).unwrap();
    payload[24] ^= 0x80;
    assert!(!validate_address(&base58_encode(&payload)));
}

#[test]
fn the_shortest_valid_address_has_no_key_hash_bytes() {
    let mut payload: Vec<u8> = vec![VERSION];
    let sum = checksum(&payload);
    payload.extend(sum);
    let address = base58_encode(&payload);
    assert!(validate_address(&address));
    assert_eq!(address_key_hash(&address), Some(vec![]));
}

#[test]
fn a_wallet_from_its_parts() {
    let wallet = Wallet::new().unwrap();
    let copy =
        Wallet::from_parts(wallet.get_pkcs8().to_vec(), wallet.get_pub_key().to_vec()).unwrap();
    assert_eq!(copy.get_address(), wallet.get_address());
    let again = Wallet::from_pkcs8(wallet.get_pkcs8().to_vec()).unwrap();
    assert_eq!(again.get_pub_key(), wallet.get_pub_key());
    let other = Wallet::new().unwrap();
    assert!(matches!(
        Wallet::from_parts(wallet.get_pkcs8().to_vec(), other.get_pub_key().to_vec()),
        Err(BlockchainError::CryptoError)
    ));
    assert!(matches!(Wallet::from_pkcs8(vec![1, 2, 3]), Err(BlockchainError::CryptoError)));
}

#[test]
fn wallets_are_kept_under_their_addresses() {
    let mut wallets = Wallets::new();
    assert!(wallets.get_addresses().is_empty());
    assert!(wallets.get_wallet("nobody").is_none());
    let first = wallets.create_wallets().unwrap();
    let second = wallets.create_wallets().unwrap();
    assert_ne!(first, second);
    assert!(validate_address(&first));
    let mut addresses = wallets.get_addresses();
    addresses.sort();
    let mut expected = vec![first.clone(), second.clone()];
    expected.sort();
    assert_eq!(addresses, expected);
    assert_eq!(wallets.get_wallet(&first).unwrap().get_address(), first);
    assert_eq!(wallets.get_wallet(&second).unwrap().get_address(), second);
    assert!(wallets.get_wallet("nobody").is_none());
}

#[test]
fn inserting_under_a_held_address_replaces() {
    let mut wallets = Wallets::new();
    let wallet = Wallet::new().unwrap();
    let address = wallet.get_address();
    wallets.insert(address.clone(), wallet.clone());
    wallets.insert(address.clone(), wallet.clone());
    assert_eq!(wallets.get_addresses(), vec![address.clone()]);
    assert_eq!(wallets.get_wallet(&address).unwrap().get_pub_key(), wallet.get_pub_key());
}

#[test]
fn a_wallet_is_kept_under_its_own_address_only() {
    let mut wallets = Wallets::new();
    let first = Wallet::new().unwrap();
    let second = Wallet::new().unwrap();
    assert!(!wallets.try_insert(String::from("name"), first.clone()));
    assert!(!wallets.try_insert(second.get_address(), first.clone()));
    assert!(wallets.get_addresses().is_empty());
    assert!(wallets.get_wallet("name").is_none());
    assert!(wallets.try_insert(first.get_address(), first.clone()));
    assert!(wallets.try_insert(second.get_address(), second.clone()));
    assert_eq!(wallets.get_addresses().len(), 2);
    for address in wallets.get_addresses() {
        assert_eq!(wallets.get_wallet(&address).unwrap().get_address(), address);
    }
}
