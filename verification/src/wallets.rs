//! Key pairs, the addresses derived from them, and the set of wallets that a node holds.

use vstd::prelude::*;

use crate::assoc::{
    assoc_map, distinct_keys, lemma_assoc_dom, lemma_assoc_index, lemma_assoc_push,
    lemma_assoc_update,
};
use crate::encoding::{bytes_equal, copy_bytes};
use crate::error::BlockchainError;
use crate::helpers::{
    base58_decode, base58_encode, create_key_pair, digest_input_ok, fits_digest, public_key_of,
    ripemd160_digest, sha256_digest, spec_base58_decode, spec_base58_encode,
    spec_pkcs8_public_key, spec_ripemd160, spec_sha256,
};

verus! {

/// The version byte that every address starts with.
pub const VERSION: u8 = 0x00;

/// The number of checksum bytes that every address ends with.
pub const ADDRESS_CHECK_SUM_LEN: usize = 4;

/// The hash that locks an output to a public key: RIPEMD-160 of SHA-256 of the key.
pub open spec fn spec_hash_pub_key(pub_key: Seq<u8>) -> Seq<u8> {
    spec_ripemd160(spec_sha256(pub_key))
}

/// The first four bytes of the double SHA-256 of a payload.
pub open spec fn spec_checksum(payload: Seq<u8>) -> Seq<u8> {
    spec_sha256(spec_sha256(payload)).subrange(0, 4)
}

/// Version, key hash and checksum: what an address encodes.
pub open spec fn spec_payload(pub_key_hash: Seq<u8>) -> Seq<u8> {
    let versioned = seq![VERSION] + pub_key_hash;
    versioned + spec_checksum(versioned)
}

/// The address of a key hash: the Base58 text of its payload.
pub open spec fn spec_address(pub_key_hash: Seq<u8>) -> Seq<char> {
    spec_base58_encode(spec_payload(pub_key_hash))
}

/// An address is valid when it decodes to at least a version byte and a checksum, and the
/// checksum is that of the bytes before it.
pub open spec fn spec_validate_address(address: Seq<char>) -> bool {
    match spec_base58_decode(address) {
        Some(payload) => {
            let split = payload.len() - 4;
            &&& payload.len() >= 5
            &&& digest_input_ok(split as nat)
            &&& payload.subrange(split, payload.len() as int) == spec_checksum(
                payload.subrange(0, split),
            )
        },
        None => false,
    }
}

/// The key hash inside an address: its payload without the version byte and the checksum.
/// The checksum is not looked at.
pub open spec fn spec_address_key_hash(address: Seq<char>) -> Option<Seq<u8>> {
    match spec_base58_decode(address) {
        Some(payload) => if payload.len() >= 5 {
            Some(payload.subrange(1, payload.len() - 4))
        } else {
            None
        },
        None => None,
    }
}

/// Whether a key hash of `len` bytes can be made into an address on this machine.
pub open spec fn key_hash_len_ok(len: nat) -> bool {
    digest_input_ok(len + 1) && len + 5 <= usize::MAX / 4
}

/// Whether a key hash of `len` bytes can be made into an address on this machine.
pub fn key_hash_fits(len: usize) -> (ok: bool)
    ensures
        ok == key_hash_len_ok(len as nat),
{
    len <= usize::MAX / 4 - 5 && fits_digest(len + 1)
}

pub fn hash_pub_key(pub_key: &[u8]) -> (hash: Vec<u8>)
    requires
        digest_input_ok(pub_key@.len()),
    ensures
        hash@ == spec_hash_pub_key(pub_key@),
        hash@.len() == 20,
{
    let pub_key_sha256 = sha256_digest(pub_key);
    ripemd160_digest(pub_key_sha256.as_slice())
}

pub fn checksum(payload: &[u8]) -> (sum: Vec<u8>)
    requires
        digest_input_ok(payload@.len()),
    ensures
        sum@ == spec_checksum(payload@),
        sum@.len() == 4,
{
    let first_sha = sha256_digest(payload);
    let second_sha = sha256_digest(first_sha.as_slice());
    copy_bytes(vstd::slice::slice_subrange(second_sha.as_slice(), 0, ADDRESS_CHECK_SUM_LEN))
}

pub fn validate_address(address: &str) -> (valid: bool)
    ensures
        valid == spec_validate_address(address@),
{
    match base58_decode(address) {
        Some(payload) => {
            if payload.len() < 5 {
                return false;
            }
            let split: usize = payload.len() - ADDRESS_CHECK_SUM_LEN;
            if !fits_digest(split) {
                return false;
            }
            let actual_checksum = vstd::slice::slice_subrange(
                payload.as_slice(),
                split,
                payload.len(),
            );
            let target = vstd::slice::slice_subrange(payload.as_slice(), 0, split);
            let target_checksum = checksum(target);
            bytes_equal(actual_checksum, target_checksum.as_slice())
        },
        None => false,
    }
}

/// The key hash inside an address, as `TxOutput` stores it.
pub fn address_key_hash(address: &str) -> (hash: Option<Vec<u8>>)
    ensures
        match hash {
            Some(h) => spec_address_key_hash(address@) == Some(h@),
            None => spec_address_key_hash(address@) is None,
        },
{
    match base58_decode(address) {
        Some(payload) => {
            if payload.len() < 5 {
                return None;
            }
            let end: usize = payload.len() - ADDRESS_CHECK_SUM_LEN;
            Some(copy_bytes(vstd::slice::slice_subrange(payload.as_slice(), 1, end)))
        },
        None => None,
    }
}

/// The address of a key hash. It is valid, and it decodes to version, key hash and checksum.
pub fn convert_address(pub_key_hash: &[u8]) -> (address: String)
    requires
        key_hash_len_ok(pub_key_hash@.len()),
    ensures
        address@ == spec_address(pub_key_hash@),
        spec_base58_decode(address@) == Some(spec_payload(pub_key_hash@)),
        spec_validate_address(address@),
        spec_address_key_hash(address@) == Some(pub_key_hash@),
{
    let mut payload: Vec<u8> = Vec::new();
    payload.push(VERSION);
    payload.extend_from_slice(pub_key_hash);
    let ghost versioned = payload@;
    let sum = checksum(payload.as_slice());
    payload.extend_from_slice(sum.as_slice());
    proof {
        assert(versioned =~= seq![VERSION] + pub_key_hash@);
        assert(payload@ =~= spec_payload(pub_key_hash@));
        let split = payload@.len() - 4;
        assert(payload@.subrange(0, split) =~= versioned);
        assert(payload@.subrange(split, payload@.len() as int) =~= sum@);
        assert(payload@.subrange(1, payload@.len() - 4) =~= pub_key_hash@);
    }
    base58_encode(payload.as_slice())
}

/// An ECDSA P-256 key pair: the PKCS#8 document and the raw public key that it holds.
pub struct Wallet {
    pkcs8: Vec<u8>,
    pub_key: Vec<u8>,
}

pub struct WalletView {
    pub pkcs8: Seq<u8>,
    pub pub_key: Seq<u8>,
}

impl WalletView {
    /// The public key is the one in the document, an uncompressed point of 65 bytes.
    pub open spec fn valid(self) -> bool {
        spec_pkcs8_public_key(self.pkcs8) == Some(self.pub_key) && self.pub_key.len() == 65
    }

    /// The address of the wallet.
    pub open spec fn address(self) -> Seq<char> {
        spec_address(spec_hash_pub_key(self.pub_key))
    }

    /// The text is the address of the wallet: a valid address that holds the hash of the
    /// wallet's key.
    pub open spec fn held_under(self, address: Seq<char>) -> bool {
        &&& self.address() == address
        &&& spec_validate_address(address)
        &&& spec_address_key_hash(address) == Some(spec_hash_pub_key(self.pub_key))
    }
}

impl View for Wallet {
    type V = WalletView;

    closed spec fn view(&self) -> WalletView {
        WalletView { pkcs8: self.pkcs8@, pub_key: self.pub_key@ }
    }
}

impl Clone for Wallet {
    fn clone(&self) -> (copy: Self)
        ensures
            copy@ == self@,
    {
        proof {
            use_type_invariant(self);
        }
        Wallet { pkcs8: self.pkcs8.clone(), pub_key: self.pub_key.clone() }
    }
}

impl Wallet {
    #[verifier::type_invariant]
    spec fn inv(self) -> bool {
        self@.valid()
    }

    /// A wallet with a fresh key pair.
    pub fn new() -> (wallet: Result<Self, BlockchainError>)
        ensures
            match wallet {
                Ok(w) => w@.valid(),
                Err(e) => e == BlockchainError::CryptoError,
            },
    {
        match create_key_pair() {
            Ok(pkcs8) => Self::from_pkcs8(pkcs8),
            Err(e) => Err(e),
        }
    }

    /// The wallet of a PKCS#8 document, if the document holds a key pair.
    pub fn from_pkcs8(pkcs8: Vec<u8>) -> (wallet: Result<Self, BlockchainError>)
        ensures
            match wallet {
                Ok(w) => w@.valid() && w@.pkcs8 == pkcs8@,
                Err(e) => e == BlockchainError::CryptoError,
            },
            spec_pkcs8_public_key(pkcs8@) is None ==> wallet is Err,
    {
        match public_key_of(pkcs8.as_slice()) {
            Ok(pub_key) => Ok(Wallet { pkcs8, pub_key }),
            Err(e) => Err(e),
        }
    }

    /// The wallet of a document and the public key stored beside it; refused where the key
    /// is not the one in the document.
    pub fn from_parts(pkcs8: Vec<u8>, pub_key: Vec<u8>) -> (wallet: Result<Self, BlockchainError>)
        ensures
            match wallet {
                Ok(w) => w@.valid() && w@ == (WalletView { pkcs8: pkcs8@, pub_key: pub_key@ }),
                Err(e) => e == BlockchainError::CryptoError,
            },
            spec_pkcs8_public_key(pkcs8@) != Some(pub_key@) ==> wallet is Err,
    {
        match public_key_of(pkcs8.as_slice()) {
            Ok(derived) => {
                if bytes_equal(derived.as_slice(), pub_key.as_slice()) {
                    Ok(Wallet { pkcs8, pub_key })
                } else {
                    Err(BlockchainError::CryptoError)
                }
            },
            Err(e) => Err(e),
        }
    }

    /// The address of the wallet. It is valid, and it decodes to version, key hash and
    /// checksum.
    pub fn get_address(&self) -> (address: String)
        ensures
            address@ == self@.address(),
            spec_validate_address(address@),
            spec_base58_decode(address@) == Some(spec_payload(spec_hash_pub_key(self@.pub_key))),
            spec_address_key_hash(address@) == Some(spec_hash_pub_key(self@.pub_key)),
    {
        proof {
            use_type_invariant(self);
        }
        let pub_key_hash = hash_pub_key(self.pub_key.as_slice());
        convert_address(pub_key_hash.as_slice())
    }

    pub fn get_pub_key(&self) -> (pub_key: &[u8])
        ensures
            pub_key@ == self@.pub_key,
            self@.valid(),
    {
        proof {
            use_type_invariant(self);
        }
        self.pub_key.as_slice()
    }

    pub fn get_pkcs8(&self) -> (pkcs8: &[u8])
        ensures
            pkcs8@ == self@.pkcs8,
            self@.valid(),
    {
        proof {
            use_type_invariant(self);
        }
        self.pkcs8.as_slice()
    }
}

struct WalletEntry {
    address: String,
    wallet: Wallet,
}

spec fn entry_pairs(entries: Seq<WalletEntry>) -> Seq<(Seq<char>, WalletView)> {
    Seq::new(entries.len(), |i: int| (entries[i].address@, entries[i].wallet@))
}

fn position(entries: &Vec<WalletEntry>, address: &String) -> (found: Option<usize>)
    ensures
        match found {
            Some(i) => i < entries@.len() && entries@[i as int].address@ == address@,
            None => forall|i: int| 0 <= i < entries@.len() ==> entries@[i].address@ != address@,
        },
{
    let mut i: usize = 0;
    while i < entries.len()
        invariant
            i <= entries@.len(),
            forall|j: int| 0 <= j < i ==> entries@[j].address@ != address@,
        decreases entries@.len() - i,
    {
        if entries[i].address == *address {
            return Some(i);
        }
        i = i + 1;
    }
    None
}

/// The wallets of a node, each under its address.
pub struct Wallets {
    wallets: Vec<WalletEntry>,
}

impl View for Wallets {
    type V = Map<Seq<char>, WalletView>;

    closed spec fn view(&self) -> Map<Seq<char>, WalletView> {
        assoc_map(self.pairs())
    }
}

impl Wallets {
    spec fn pairs(self) -> Seq<(Seq<char>, WalletView)> {
        entry_pairs(self.wallets@)
    }

    #[verifier::type_invariant]
    spec fn inv(self) -> bool {
        &&& distinct_keys(self.pairs())
        &&& forall|i: int|
            0 <= i < self.pairs().len() ==> (#[trigger] self.pairs()[i]).1.held_under(
                self.pairs()[i].0,
            )
    }

    /// No wallets.
    pub fn new() -> (wallets: Self)
        ensures
            wallets@ == Map::<Seq<char>, WalletView>::empty(),
    {
        let wallets = Wallets { wallets: Vec::new() };
        assert(wallets.pairs() =~= Seq::empty());
        wallets
    }

    /// Puts a wallet under its address; a wallet already there is replaced.
    pub fn insert(&mut self, address: String, wallet: Wallet)
        requires
            wallet@.held_under(address@),
        ensures
            final(self)@ == old(self)@.insert(address@, wallet@),
    {
        proof {
            use_type_invariant(&*self);
        }
        let ghost before = self.pairs();
        let mut entries: Vec<WalletEntry> = Vec::new();
        std::mem::swap(&mut entries, &mut self.wallets);
        match position(&entries, &address) {
            Some(i) => {
                entries.set(i, WalletEntry { address, wallet });
                proof {
                    let after = entry_pairs(entries@);
                    assert(before[i as int].0 == address@);
                    assert(after =~= before.update(i as int, (address@, wallet@)));
                    lemma_assoc_update(before, i as int, wallet@);
                    assert forall|k: int| 0 <= k < after.len() implies (
                    #[trigger] after[k]).1.held_under(after[k].0) by {
                        if k != i {
                            assert(before[k].1.held_under(before[k].0));
                        }
                    }
                }
            },
            None => {
                entries.push(WalletEntry { address, wallet });
                proof {
                    let after = entry_pairs(entries@);
                    assert(after =~= before.push((address@, wallet@)));
                    lemma_assoc_push(before, address@, wallet@);
                    assert forall|a: int, b: int| 0 <= a < b < after.len() implies after[a].0
                        != after[b].0 by {
                        if b < before.len() {
                            assert(before[a].0 != before[b].0);
                        } else {
                            assert(before[a].0 != address@);
                        }
                    }
                    assert forall|k: int| 0 <= k < after.len() implies (
                    #[trigger] after[k]).1.held_under(after[k].0) by {
                        if k < before.len() {
                            assert(before[k].1.held_under(before[k].0));
                        }
                    }
                }
            },
        }
        self.wallets = entries;
    }

    /// Puts a wallet under an address if that is its address, and says whether it is;
    /// nothing changes where it is not.
    pub fn try_insert(&mut self, address: String, wallet: Wallet) -> (inserted: bool)
        ensures
            inserted == (wallet@.address() == address@),
            final(self)@ == if inserted {
                old(self)@.insert(address@, wallet@)
            } else {
                old(self)@
            },
    {
        let own = wallet.get_address();
        if own == address {
            self.insert(address, wallet);
            true
        } else {
            false
        }
    }

    /// Makes a wallet with a fresh key pair, keeps it under its address and returns the
    /// address.
    pub fn create_wallets(&mut self) -> (address: Result<String, BlockchainError>)
        ensures
            match address {
                Ok(a) => {
                    &&& final(self)@.dom().contains(a@)
                    &&& final(self)@ == old(self)@.insert(a@, final(self)@[a@])
                    &&& final(self)@[a@].valid()
                    &&& final(self)@[a@].held_under(a@)
                },
                Err(e) => e == BlockchainError::CryptoError && final(self)@ == old(self)@,
            },
    {
        match Wallet::new() {
            Ok(wallet) => {
                let address = wallet.get_address();
                let key = address.clone();
                self.insert(key, wallet);
                Ok(address)
            },
            Err(e) => Err(e),
        }
    }

    /// The addresses under which a wallet is held, each once.
    pub fn get_addresses(&self) -> (addresses: Vec<String>)
        ensures
            forall|i: int| 0 <= i < addresses@.len() ==> self@.dom().contains(#[trigger] addresses@[i]@),
            forall|a: Seq<char>|
                self@.dom().contains(a) ==> exists|i: int|
                    0 <= i < addresses@.len() && #[trigger] addresses@[i]@ == a,
            forall|i: int, j: int|
                0 <= i < j < addresses@.len() ==> addresses@[i]@ != addresses@[j]@,
            forall|i: int|
                0 <= i < addresses@.len() ==> self@[#[trigger] addresses@[i]@].held_under(
                    addresses@[i]@,
                ),
    {
        proof {
            use_type_invariant(self);
        }
        let mut addresses: Vec<String> = Vec::new();
        let mut i: usize = 0;
        while i < self.wallets.len()
            invariant
                i <= self.wallets@.len(),
                addresses@.len() == i,
                forall|j: int| 0 <= j < i ==> addresses@[j]@ == self.wallets@[j].address@,
            decreases self.wallets@.len() - i,
        {
            addresses.push(self.wallets[i].address.clone());
            i = i + 1;
        }
        proof {
            let pairs = self.pairs();
            assert forall|k: int| 0 <= k < addresses@.len() implies self@.dom().contains(
                #[trigger] addresses@[k]@,
            ) by {
                lemma_assoc_index(pairs, k);
            }
            assert forall|a: Seq<char>| self@.dom().contains(a) implies exists|k: int|
                0 <= k < addresses@.len() && #[trigger] addresses@[k]@ == a by {
                lemma_assoc_dom(pairs, a);
                let k = choose|k: int| 0 <= k < pairs.len() && #[trigger] pairs[k].0 == a;
                assert(addresses@[k]@ == a);
            }
            assert forall|a: int, b: int| 0 <= a < b < addresses@.len() implies addresses@[a]@
                != addresses@[b]@ by {
                assert(pairs[a].0 != pairs[b].0);
            }
            assert forall|k: int| 0 <= k < addresses@.len() implies self@[#[trigger] addresses@[k]@].held_under(
                addresses@[k]@,
            ) by {
                lemma_assoc_index(pairs, k);
                assert(pairs[k].1.held_under(pairs[k].0));
            }
        }
        addresses
    }

    /// The wallet held under an address.
    pub fn get_wallet(&self, address: &str) -> (wallet: Option<&Wallet>)
        ensures
            match wallet {
                Some(w) => {
                    &&& self@.dom().contains(address@)
                    &&& self@[address@] == w@
                    &&& w@.valid()
                    &&& w@.held_under(address@)
                },
                None => !self@.dom().contains(address@),
            },
    {
        proof {
            use_type_invariant(self);
        }
        let key: String = address.to_owned();
        match position(&self.wallets, &key) {
            Some(i) => {
                let wallet = &self.wallets[i].wallet;
                proof {
                    use_type_invariant(wallet);
                    assert(self.pairs()[i as int].0 == address@);
                    assert(self.pairs()[i as int].1.held_under(self.pairs()[i as int].0));
                    lemma_assoc_index(self.pairs(), i as int);
                }
                Some(wallet)
            },
            None => {
                proof {
                    lemma_assoc_dom(self.pairs(), address@);
                }
                None
            },
        }
    }
}

} // verus!
