use data_encoding::HEXLOWER;
use mini_blockchain::error::BlockchainError;
use mini_blockchain::helpers::{
    base58_decode, base58_encode, create_key_pair, current_timestamp,
    ecdsa_p256_sha256_sign_digest, ecdsa_p256_sha256_sign_verify, fits_digest, ripemd160_digest,
    sha256_digest, timestamp_from_millis,
};
use mini_blockchain::wallets::Wallet;

#[test]
fn sha256_of_abc() {
    let digest = sha256_digest(b"abc");
    assert_eq!(
        HEXLOWER.encode(&digest),
        "ba7816bf8f01cfea414140de5dae2223b00361a396177a9cb410ff61f20015ad"
    );
}

#[test]
fn sha256_of_nothing() {
    let digest = sha256_digest(b"");
    assert_eq!(digest.len(), 32);
    assert_eq!(
        HEXLOWER.encode(&digest),
        "e3b0c44298fc1c149afbf4c8996fb92427ae41e4649b934ca495991b7852b855"
    );
}

#[test]
fn ripemd160_of_abc() {
    let digest = ripemd160_digest(b"abc");
    assert_eq!(digest.len(), 20);
    assert_eq!(HEXLOWER.encode(&digest), "8eb208f7e05d987a9b044a8e98c6b087f15a0bfc");
}

#[test]
fn ripemd160_of_nothing() {
    let digest = ripemd160_digest(b"");
    assert_eq!(HEXLOWER.encode(&digest), "9c1185a5c5e9fc54612808977ee8f548b2258d31");
}

#[test]
fn base58_known_text() {
    let bytes: Vec<u8> = vec![0x04, 0x30, 0x5e, 0x2b, 0x24, 0x73, 0xf0, 0x58];
    assert_eq!(base58_encode(&bytes), "he11owor1d");
    assert_eq!(base58_decode("he11owor1d"), Some(bytes));
}

#[test]
fn base58_keeps_leading_zeros() {
    let bytes: Vec<u8> = vec![0, 0, 1, 2, 3];
    let text = base58_encode(&bytes);
    assert!(text.starts_with("11"));
    assert_eq!(base58_decode(&text), Some(bytes));
}

#[test]
fn base58_refuses_foreign_characters() {
    assert_eq!(base58_decode("0OIl"), None);
    assert_eq!(base58_decode("abc def"), None);
}

#[test]
fn the_clock_is_past_the_epoch() {
    let now = current_timestamp();
    assert!(now > 1_600_000_000_000);
}

#[test]
fn digest_limit() {
    assert!(fits_digest(0));
    assert!(fits_digest(1 << 20));
    if usize::BITS == 64 {
        assert!(fits_digest((1usize << 61) - 1));
        assert!(!fits_digest(1usize << 61));
    }
}

#[test]
fn a_signature_verifies_under_its_key() {
    let pkcs8 = create_key_pair().unwrap();
    let wallet = Wallet::from_pkcs8(pkcs8.clone()).unwrap();
    let pub_key = wallet.get_pub_key().to_vec();
    assert_eq!(pub_key.len(), 65);
    assert_eq!(pub_key[0], 4);
    assert_ne!(pub_key, pkcs8);
    let message = sha256_digest(b"message");
    let signature = ecdsa_p256_sha256_sign_digest(&pkcs8, &message).unwrap();
    assert_eq!(signature.len(), 64);
    assert!(ecdsa_p256_sha256_sign_verify(&pub_key, &signature, &message));
}

#[test]
fn a_signature_fails_on_another_message_or_key() {
    let pkcs8 = create_key_pair().unwrap();
    let pub_key = Wallet::from_pkcs8(pkcs8.clone()).unwrap().get_pub_key().to_vec();
    let message = sha256_digest(b"message");
    let signature = ecdsa_p256_sha256_sign_digest(&pkcs8, &message).unwrap();
    let other = sha256_digest(b"another");
    assert!(!ecdsa_p256_sha256_sign_verify(&pub_key, &signature, &other));
    let stranger = Wallet::new().unwrap().get_pub_key().to_vec();
    assert!(!ecdsa_p256_sha256_sign_verify(&stranger, &signature, &message));
    let mut tampered = signature.clone();
    tampered[10] ^= 1;
    assert!(!ecdsa_p256_sha256_sign_verify(&pub_key, &tampered, &message));
    assert!(!ecdsa_p256_sha256_sign_verify(&[], &signature, &message));
    assert!(!ecdsa_p256_sha256_sign_verify(&pub_key, &[], &message));
}

#[test]
fn a_document_that_is_no_key_pair_is_refused() {
    assert!(matches!(Wallet::from_pkcs8(vec![1, 2, 3]), Err(BlockchainError::CryptoError)));
    assert_eq!(
        ecdsa_p256_sha256_sign_digest(&[1, 2, 3], b"message"),
        Err(BlockchainError::CryptoError)
    );
}

#[test]
fn a_reading_of_the_clock_is_clamped_to_the_timestamp_range() {
    assert_eq!(timestamp_from_millis(None), 0);
    assert_eq!(timestamp_from_millis(Some(0)), 0);
    assert_eq!(timestamp_from_millis(Some(1_700_000_000_123)), 1_700_000_000_123);
    assert_eq!(timestamp_from_millis(Some(i64::MAX as u128)), i64::MAX);
    assert_eq!(timestamp_from_millis(Some(i64::MAX as u128 + 1)), i64::MAX);
    assert_eq!(timestamp_from_millis(Some(u128::MAX)), i64::MAX);
}

#[test]
fn the_clock_does_not_run_backwards_by_much() {
    let first = current_timestamp();
    let second = current_timestamp();
    assert!(second >= first - 1_000);
    assert!(second <= first + 60_000);
}
