//! What the ledger rests on: digests, Base58 and hexadecimal text, ECDSA over P-256,
//! big numbers and the clock, each from the crate that provides it.

use crypto::digest::Digest;
use num_bigint::{BigInt, Sign};
use ring::signature::{
    EcdsaKeyPair, KeyPair, UnparsedPublicKey, ECDSA_P256_SHA256_FIXED,
    ECDSA_P256_SHA256_FIXED_SIGNING,
};
use std::time::{Duration, SystemTime, UNIX_EPOCH};
use vstd::arithmetic::power2::pow2;
use vstd::prelude::*;

use crate::error::BlockchainError;

verus! {

/// The digests accept fewer than 2^61 bytes: the bit length of the input has to fit in 64 bits.
pub const DIGEST_INPUT_LIMIT: u64 = 0x2000_0000_0000_0000;

/// Whether an input of `len` bytes can be digested.
pub open spec fn digest_input_ok(len: nat) -> bool {
    len < DIGEST_INPUT_LIMIT
}

/// Whether an input of `len` bytes can be digested.
pub fn fits_digest(len: usize) -> (ok: bool)
    ensures
        ok == digest_input_ok(len as nat),
{
    (len as u64) < DIGEST_INPUT_LIMIT
}

/// The SHA-256 digest of a byte string.
pub uninterp spec fn spec_sha256(data: Seq<u8>) -> Seq<u8>;

/// The RIPEMD-160 digest of a byte string.
pub uninterp spec fn spec_ripemd160(data: Seq<u8>) -> Seq<u8>;

/// The Base58 text (Bitcoin alphabet) of a byte string.
pub uninterp spec fn spec_base58_encode(data: Seq<u8>) -> Seq<char>;

/// The bytes that a Base58 text stands for, if it is one.
pub uninterp spec fn spec_base58_decode(text: Seq<char>) -> Option<Seq<u8>>;

/// The raw public key held in a PKCS#8 document of an ECDSA P-256 key pair, if it is one.
pub uninterp spec fn spec_pkcs8_public_key(pkcs8: Seq<u8>) -> Option<Seq<u8>>;

/// Whether `signature` is a fixed-length ECDSA P-256/SHA-256 signature of `message` under
/// the raw public key `pub_key`.
pub uninterp spec fn spec_ecdsa_verify(pub_key: Seq<u8>, signature: Seq<u8>, message: Seq<u8>) -> bool;

/// The number that a byte string denotes when read big-endian.
pub open spec fn be_value(bytes: Seq<u8>) -> nat
    decreases bytes.len(),
{
    if bytes.len() == 0 {
        0
    } else {
        be_value(bytes.drop_last()) * 256 + bytes.last() as nat
    }
}

/// The lower-case hexadecimal digit of a value below 16.
pub open spec fn hex_digit(nibble: int) -> char {
    if nibble < 10 {
        (nibble + 48) as char
    } else {
        (nibble + 87) as char
    }
}

/// The lower-case hexadecimal text of a byte string, two digits a byte, high digit first.
pub open spec fn hex_lower(bytes: Seq<u8>) -> Seq<char> {
    Seq::new(
        2 * bytes.len(),
        |i: int|
            if i % 2 == 0 {
                hex_digit(bytes[i / 2] as int / 16)
            } else {
                hex_digit(bytes[i / 2] as int % 16)
            },
    )
}

/// A point in time as the system's clock gives it.
#[verifier::external_type_specification]
#[verifier::external_body]
pub struct ExSystemTime(SystemTime);

/// `SystemTime::now`: the present time. Nothing is claimed of it.
#[verifier::external_body]
fn system_time_now() -> (now: SystemTime) {
    SystemTime::now()
}

/// `SystemTime::duration_since` with `UNIX_EPOCH`: the time passed since the epoch, or
/// `None` where the point in time lies before it. Nothing is claimed of the duration.
#[verifier::external_body]
fn duration_since_epoch(time: &SystemTime) -> (elapsed: Option<Duration>) {
    match time.duration_since(UNIX_EPOCH) {
        Ok(elapsed) => Some(elapsed),
        Err(_) => None,
    }
}

/// `Duration::as_millis`: the whole milliseconds of a duration. Nothing is claimed of the
/// number.
#[verifier::external_body]
fn duration_as_millis(duration: &Duration) -> (millis: u128) {
    duration.as_millis()
}

/// Milliseconds since the Unix epoch, clamped to the non-negative `i64` range; 0 when the
/// clock stands before the epoch.
pub fn current_timestamp() -> (now: i64)
    ensures
        exists|elapsed: Option<u128>| now == #[trigger] timestamp_of(elapsed),
        now >= 0,
{
    let time = system_time_now();
    let elapsed = match duration_since_epoch(&time) {
        Some(elapsed) => Some(duration_as_millis(&elapsed)),
        None => None,
    };
    timestamp_from_millis(elapsed)
}

/// The timestamp that a reading of the clock stands for: the milliseconds since the epoch
/// as they are, `i64::MAX` where they are more than that, and 0 where the clock stood
/// before the epoch and gave no reading.
pub open spec fn timestamp_of(elapsed: Option<u128>) -> i64 {
    match elapsed {
        Some(millis) => if millis <= i64::MAX {
            millis as i64
        } else {
            i64::MAX
        },
        None => 0,
    }
}

/// The timestamp that a reading of the clock stands for.
pub fn timestamp_from_millis(elapsed: Option<u128>) -> (timestamp: i64)
    ensures
        timestamp == timestamp_of(elapsed),
        timestamp >= 0,
{
    match elapsed {
        Some(millis) => {
            if millis <= 0x7fff_ffff_ffff_ffffu128 {
                millis as i64
            } else {
                i64::MAX
            }
        },
        None => 0,
    }
}

/// `ring::digest::digest` with `SHA256`: the result is the SHA-256 digest of `data`, which
/// is 32 bytes long. The call fails on inputs of 2^61 bytes or more, which are left out.
#[verifier::external_body]
pub fn sha256_digest(data: &[u8]) -> (digest: Vec<u8>)
    requires
        digest_input_ok(data@.len()),
    ensures
        digest@ == spec_sha256(data@),
        digest@.len() == 32,
{
    ring::digest::digest(&ring::digest::SHA256, data).as_ref().to_vec()
}

/// `crypto::ripemd160::Ripemd160` fed with `data`: the result is the RIPEMD-160 digest of
/// `data`, which is 20 bytes long. The call fails on inputs of 2^61 bytes or more, which
/// are left out.
#[verifier::external_body]
pub fn ripemd160_digest(data: &[u8]) -> (digest: Vec<u8>)
    requires
        digest_input_ok(data@.len()),
    ensures
        digest@ == spec_ripemd160(data@),
        digest@.len() == 20,
{
    let mut hasher = crypto::ripemd160::Ripemd160::new();
    hasher.input(data);
    let mut digest = vec![0u8; hasher.output_bytes()];
    hasher.result(&mut digest);
    digest
}

/// `bs58::encode(..).into_string()`: the result is the Base58 text of `data`, and that text
/// decodes to `data` again. The call sizes its buffer at one and a half times the input,
/// so inputs over a quarter of the address space are left out.
#[verifier::external_body]
pub fn base58_encode(data: &[u8]) -> (text: String)
    requires
        data@.len() <= usize::MAX / 4,
    ensures
        text@ == spec_base58_encode(data@),
        spec_base58_decode(text@) == Some(data@),
{
    bs58::encode(data).into_string()
}

/// `bs58::decode(..).into_vec()`: the bytes that `text` stands for, or `None` where it
/// holds a character outside the alphabet.
#[verifier::external_body]
pub fn base58_decode(text: &str) -> (bytes: Option<Vec<u8>>)
    ensures
        match bytes {
            Some(b) => spec_base58_decode(text@) == Some(b@),
            None => spec_base58_decode(text@) is None,
        },
{
    match bs58::decode(text).into_vec() {
        Ok(bytes) => Some(bytes),
        Err(_) => None,
    }
}

/// `EcdsaKeyPair::generate_pkcs8` with the system's random numbers: a fresh key pair as a
/// PKCS#8 document, one that holds a key pair. Nothing more is claimed of the document.
#[verifier::external_body]
pub fn create_key_pair() -> (pkcs8: Result<Vec<u8>, BlockchainError>)
    ensures
        match pkcs8 {
            Ok(document) => spec_pkcs8_public_key(document@) is Some,
            Err(e) => e == BlockchainError::CryptoError,
        },
{
    let rng = ring::rand::SystemRandom::new();
    match EcdsaKeyPair::generate_pkcs8(&ECDSA_P256_SHA256_FIXED_SIGNING, &rng) {
        Ok(document) => Ok(document.as_ref().to_vec()),
        Err(_) => Err(BlockchainError::CryptoError),
    }
}

/// `EcdsaKeyPair::from_pkcs8(..).public_key()`: where the document is accepted, its raw
/// public key, an uncompressed P-256 point of 65 bytes.
#[verifier::external_body]
pub(crate) fn public_key_of(pkcs8: &[u8]) -> (pub_key: Result<Vec<u8>, BlockchainError>)
    ensures
        match pub_key {
            Ok(key) => spec_pkcs8_public_key(pkcs8@) == Some(key@) && key@.len() == 65,
            Err(e) => e == BlockchainError::CryptoError,
        },
{
    let rng = ring::rand::SystemRandom::new();
    match EcdsaKeyPair::from_pkcs8(&ECDSA_P256_SHA256_FIXED_SIGNING, pkcs8, &rng) {
        Ok(key_pair) => Ok(key_pair.public_key().as_ref().to_vec()),
        Err(_) => Err(BlockchainError::CryptoError),
    }
}

/// `EcdsaKeyPair::from_pkcs8(..).sign(..)`: a signature of `message` under the key pair of
/// the document, 64 bytes long; it is one that `UnparsedPublicKey::verify` accepts under the
/// public key of that pair. The nonce is random, so nothing more is said of the bytes. A
/// document that holds no key pair is refused.
#[verifier::external_body]
pub fn ecdsa_p256_sha256_sign_digest(pkcs8: &[u8], message: &[u8]) -> (signature: Result<
    Vec<u8>,
    BlockchainError,
>)
    requires
        digest_input_ok(message@.len()),
    ensures
        match signature {
            Ok(sig) => {
                &&& sig@.len() == 64
                &&& spec_pkcs8_public_key(pkcs8@) matches Some(key)
                &&& spec_ecdsa_verify(key, sig@, message@)
            },
            Err(e) => e == BlockchainError::CryptoError,
        },
{
    let rng = ring::rand::SystemRandom::new();
    match EcdsaKeyPair::from_pkcs8(&ECDSA_P256_SHA256_FIXED_SIGNING, pkcs8, &rng) {
        Ok(key_pair) => match key_pair.sign(&rng, message) {
            Ok(signature) => Ok(signature.as_ref().to_vec()),
            Err(_) => Err(BlockchainError::CryptoError),
        },
        Err(_) => Err(BlockchainError::CryptoError),
    }
}

/// `UnparsedPublicKey::new(&ECDSA_P256_SHA256_FIXED, ..).verify(..)`: whether `signature`
/// is a signature of `message` under `pub_key`. A key or a signature that does not parse
/// gives `false`.
#[verifier::external_body]
pub fn ecdsa_p256_sha256_sign_verify(pub_key: &[u8], signature: &[u8], message: &[u8]) -> (ok:
    bool)
    requires
        digest_input_ok(message@.len()),
    ensures
        ok == spec_ecdsa_verify(pub_key@, signature@, message@),
{
    UnparsedPublicKey::new(&ECDSA_P256_SHA256_FIXED, pub_key).verify(message, signature).is_ok()
}

/// `data_encoding::HEXLOWER.encode`: two lower-case hexadecimal digits for each byte. The
/// call refuses inputs over `usize::MAX / 512` bytes, which are left out.
#[verifier::external_body]
pub(crate) fn hex_encode(data: &[u8]) -> (text: String)
    requires
        data@.len() <= usize::MAX / 512,
    ensures
        text@ == hex_lower(data@),
{
    data_encoding::HEXLOWER.encode(data)
}

/// `String::from_utf8`: the text that the bytes encode in UTF-8, or `None` where they are
/// not UTF-8.
#[verifier::external_body]
pub(crate) fn string_from_utf8(bytes: Vec<u8>) -> (text: Option<String>)
    ensures
        match text {
            Some(t) => vstd::utf8::valid_utf8(bytes@) && t@ == vstd::utf8::decode_utf8(bytes@),
            None => !vstd::utf8::valid_utf8(bytes@),
        },
{
    match String::from_utf8(bytes) {
        Ok(text) => Some(text),
        Err(_) => None,
    }
}

/// `uuid::Uuid::new_v4().as_bytes()`: 16 bytes, random but for the version and variant bits.
#[verifier::external_body]
pub(crate) fn random_tag() -> (tag: Vec<u8>)
    ensures
        tag@.len() == 16,
{
    uuid::Uuid::new_v4().as_bytes().to_vec()
}

/// `(BigInt::from(1) << shift).to_bytes_be()`: the big-endian bytes of two to the power
/// `shift`.
#[verifier::external_body]
pub(crate) fn power_of_two_bytes(shift: usize) -> (bytes: Vec<u8>)
    ensures
        be_value(bytes@) == pow2(shift as nat),
{
    (BigInt::from(1) << shift).to_bytes_be().1
}

/// `BigInt::from_bytes_be` on both and `<`: whether the number that `left` denotes,
/// big-endian and unsigned, is below the one that `right` denotes.
#[verifier::external_body]
pub(crate) fn be_less_than(left: &[u8], right: &[u8]) -> (below: bool)
    ensures
        below == (be_value(left@) < be_value(right@)),
{
    BigInt::from_bytes_be(Sign::Plus, left) < BigInt::from_bytes_be(Sign::Plus, right)
}

} // verus!
