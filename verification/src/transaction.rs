//! Transactions: inputs that spend earlier outputs, outputs locked to key hashes, and
//! the digests by which a transaction is named and signed.

use vstd::prelude::*;

use crate::encoding::{
    copy_bytes, bytes_equal, encode_bytes, encode_i32, encode_u64, write_bytes, write_i32,
    write_u64,
};
use crate::error::BlockchainError;
use crate::blockchain::{Blockchain, LedgerView};
use crate::decoding::{
    input_storable, lemma_parse_len_encoding, lemma_parse_outputs_encoding,
    lemma_parse_transaction_encoding, output_storable, parse_len, parse_outputs,
    parse_transaction, read_len, read_outputs, read_transaction, transaction_storable,
};
use crate::helpers::{
    digest_input_ok, ecdsa_p256_sha256_sign_digest, ecdsa_p256_sha256_sign_verify, fits_digest,
    random_tag, sha256_digest, spec_ecdsa_verify, spec_pkcs8_public_key, spec_sha256,
};
use crate::utxoset::{balance, select_spendable, selection_view, ChainstateView, UTXOSet};
use crate::wallets::{
    address_key_hash, hash_pub_key, spec_address_key_hash, spec_hash_pub_key, WalletView, Wallets,
};

verus! {

/// What a coinbase transaction pays.
pub const INCENTIVE: i32 = 10;

/// A reference to an output of an earlier transaction, with the spender's signature and key.
#[derive(Debug)]
pub struct TxInput {
    txid: Vec<u8>,
    vout: usize,
    signature: Vec<u8>,
    pub_key: Vec<u8>,
}

pub struct TxInputView {
    pub txid: Seq<u8>,
    pub vout: usize,
    pub signature: Seq<u8>,
    pub pub_key: Seq<u8>,
}

impl View for TxInput {
    type V = TxInputView;

    closed spec fn view(&self) -> TxInputView {
        TxInputView {
            txid: self.txid@,
            vout: self.vout,
            signature: self.signature@,
            pub_key: self.pub_key@,
        }
    }
}

impl Clone for TxInput {
    fn clone(&self) -> (copy: Self)
        ensures
            copy@ == self@,
    {
        TxInput {
            txid: self.txid.clone(),
            vout: self.vout,
            signature: self.signature.clone(),
            pub_key: self.pub_key.clone(),
        }
    }
}

impl Default for TxInput {
    fn default() -> (input: Self)
        ensures
            input@ == TxInputView::unsigned(Seq::empty(), 0),
    {
        TxInput { txid: Vec::new(), vout: 0, signature: Vec::new(), pub_key: Vec::new() }
    }
}

impl TxInputView {
    /// An input without signature and key.
    pub open spec fn unsigned(txid: Seq<u8>, vout: usize) -> TxInputView {
        TxInputView { txid, vout, signature: Seq::empty(), pub_key: Seq::empty() }
    }

    /// The encoding of an input: its four fields in order.
    pub open spec fn encoding(self) -> Seq<u8> {
        encode_bytes(self.txid) + encode_u64(self.vout as u64) + encode_bytes(self.signature)
            + encode_bytes(self.pub_key)
    }
}

impl TxInput {
    /// An input that refers to output `vout` of transaction `txid`, not yet signed.
    pub fn new(txid: &[u8], vout: usize) -> (input: Self)
        ensures
            input@ == TxInputView::unsigned(txid@, vout),
    {
        TxInput { txid: copy_bytes(txid), vout, signature: Vec::new(), pub_key: Vec::new() }
    }

    /// An input of the four given fields.
    pub fn from_parts(txid: Vec<u8>, vout: usize, signature: Vec<u8>, pub_key: Vec<u8>) -> (input:
        Self)
        ensures
            input@ == (TxInputView { txid: txid@, vout, signature: signature@, pub_key: pub_key@ }),
    {
        TxInput { txid, vout, signature, pub_key }
    }

    pub fn get_txid(&self) -> (txid: &[u8])
        ensures
            txid@ == self@.txid,
    {
        self.txid.as_slice()
    }

    pub fn get_vout(&self) -> (vout: usize)
        ensures
            vout == self@.vout,
    {
        self.vout
    }

    pub fn get_signature(&self) -> (signature: &[u8])
        ensures
            signature@ == self@.signature,
    {
        self.signature.as_slice()
    }

    pub fn get_pub_key(&self) -> (pub_key: &[u8])
        ensures
            pub_key@ == self@.pub_key,
    {
        self.pub_key.as_slice()
    }

    /// Whether the key of this input hashes to `pub_key_hash`.
    pub fn uses_key(&self, pub_key_hash: &[u8]) -> (uses: bool)
        requires
            digest_input_ok(self@.pub_key.len()),
        ensures
            uses == (spec_hash_pub_key(self@.pub_key) == pub_key_hash@),
    {
        let locking_hash = hash_pub_key(self.pub_key.as_slice());
        bytes_equal(locking_hash.as_slice(), pub_key_hash)
    }

    fn write(&self, out: &mut Vec<u8>)
        ensures
            final(out)@ == old(out)@ + self@.encoding(),
            input_storable(self@),
    {
        write_bytes(out, self.txid.as_slice());
        write_u64(out, self.vout as u64);
        write_bytes(out, self.signature.as_slice());
        write_bytes(out, self.pub_key.as_slice());
        assert(final(out)@ =~= old(out)@ + self@.encoding());
    }
}

/// An amount locked to a key hash. The amount is never negative.
#[derive(Debug)]
pub struct TxOutput {
    value: i32,
    pub_key_hash: Vec<u8>,
}

pub struct TxOutputView {
    pub value: i32,
    pub pub_key_hash: Seq<u8>,
}

impl View for TxOutput {
    type V = TxOutputView;

    closed spec fn view(&self) -> TxOutputView {
        TxOutputView { value: self.value, pub_key_hash: self.pub_key_hash@ }
    }
}

impl Clone for TxOutput {
    fn clone(&self) -> (copy: Self)
        ensures
            copy@ == self@,
    {
        proof {
            use_type_invariant(self);
        }
        TxOutput { value: self.value, pub_key_hash: self.pub_key_hash.clone() }
    }
}

impl TxOutputView {
    /// The encoding of an output: its two fields in order.
    pub open spec fn encoding(self) -> Seq<u8> {
        encode_i32(self.value) + encode_bytes(self.pub_key_hash)
    }

    /// Whether the output is locked to `pub_key_hash`.
    pub open spec fn is_locked_with_key(self, pub_key_hash: Seq<u8>) -> bool {
        self.pub_key_hash == pub_key_hash
    }
}

impl TxOutput {
    #[verifier::type_invariant]
    spec fn inv(self) -> bool {
        self.value >= 0
    }

    /// An output of `value` locked to the key hash inside `address`. An address that holds
    /// no key hash is refused first, a negative amount second.
    pub fn new(value: i32, address: &str) -> (output: Result<Self, BlockchainError>)
        ensures
            match output {
                Ok(o) => {
                    &&& value >= 0
                    &&& spec_address_key_hash(address@) == Some(o@.pub_key_hash)
                    &&& o@.value == value
                },
                Err(e) => if spec_address_key_hash(address@) is None {
                    e == BlockchainError::InvalidAddress
                } else {
                    e == BlockchainError::InvalidTransaction && value < 0
                },
            },
    {
        let mut output = TxOutput { value: 0, pub_key_hash: Vec::new() };
        if !output.lock(address) {
            return Err(BlockchainError::InvalidAddress);
        }
        if value < 0 {
            return Err(BlockchainError::InvalidTransaction);
        }
        output.value = value;
        Ok(output)
    }

    /// An output of the two given fields, if the amount is not negative.
    pub fn from_parts(value: i32, pub_key_hash: Vec<u8>) -> (output: Option<Self>)
        ensures
            match output {
                Some(o) => value >= 0 && o@ == (TxOutputView { value, pub_key_hash: pub_key_hash@ }),
                None => value < 0,
            },
    {
        if value >= 0 {
            Some(TxOutput { value, pub_key_hash })
        } else {
            None
        }
    }

    pub fn get_value(&self) -> (value: i32)
        ensures
            value == self@.value,
            value >= 0,
    {
        proof {
            use_type_invariant(self);
        }
        self.value
    }

    pub fn get_pub_key_hash(&self) -> (pub_key_hash: &[u8])
        ensures
            pub_key_hash@ == self@.pub_key_hash,
    {
        self.pub_key_hash.as_slice()
    }

    /// Locks the output to the key hash inside `address`; leaves it as it is, and says so,
    /// where the address holds none.
    fn lock(&mut self, address: &str) -> (locked: bool)
        ensures
            final(self)@.value == old(self)@.value,
            match spec_address_key_hash(address@) {
                Some(hash) => locked && final(self)@.pub_key_hash == hash,
                None => !locked && final(self)@ == old(self)@,
            },
    {
        proof {
            use_type_invariant(&*self);
        }
        match address_key_hash(address) {
            Some(hash) => {
                self.pub_key_hash = hash;
                true
            },
            None => false,
        }
    }

    pub fn is_locked_with_key(&self, pub_key_hash: &[u8]) -> (locked: bool)
        ensures
            locked == self@.is_locked_with_key(pub_key_hash@),
    {
        bytes_equal(self.pub_key_hash.as_slice(), pub_key_hash)
    }

    fn write(&self, out: &mut Vec<u8>)
        ensures
            final(out)@ == old(out)@ + self@.encoding(),
            output_storable(self@),
    {
        proof {
            use_type_invariant(self);
        }
        write_i32(out, self.value);
        write_bytes(out, self.pub_key_hash.as_slice());
        assert(final(out)@ =~= old(out)@ + self@.encoding());
    }
}

/// The views of a list of inputs.
pub open spec fn inputs_view(inputs: Seq<TxInput>) -> Seq<TxInputView> {
    Seq::new(inputs.len(), |i: int| inputs[i]@)
}

/// The views of a list of outputs.
pub open spec fn outputs_view(outputs: Seq<TxOutput>) -> Seq<TxOutputView> {
    Seq::new(outputs.len(), |i: int| outputs[i]@)
}

/// The encodings of the inputs, one after the other.
pub open spec fn encode_inputs(inputs: Seq<TxInputView>) -> Seq<u8>
    decreases inputs.len(),
{
    if inputs.len() == 0 {
        Seq::empty()
    } else {
        encode_inputs(inputs.drop_last()) + inputs.last().encoding()
    }
}

/// The encodings of the outputs, one after the other.
pub open spec fn encode_outputs(outputs: Seq<TxOutputView>) -> Seq<u8>
    decreases outputs.len(),
{
    if outputs.len() == 0 {
        Seq::empty()
    } else {
        encode_outputs(outputs.drop_last()) + outputs.last().encoding()
    }
}

/// A copy of a list of outputs.
pub fn clone_outputs(outputs: &[TxOutput]) -> (copy: Vec<TxOutput>)
    ensures
        outputs_view(copy@) == outputs_view(outputs@),
{
    let mut copy: Vec<TxOutput> = Vec::new();
    let mut i: usize = 0;
    while i < outputs.len()
        invariant
            i <= outputs@.len(),
            copy@.len() == i,
            forall|j: int| 0 <= j < i ==> copy@[j]@ == outputs@[j]@,
        decreases outputs@.len() - i,
    {
        copy.push(outputs[i].clone());
        i = i + 1;
    }
    assert(outputs_view(copy@) =~= outputs_view(outputs@));
    copy
}

/// What a list of outputs is kept as: the outputs behind their number.
pub open spec fn encode_output_list(outputs: Seq<TxOutputView>) -> Seq<u8> {
    encode_u64(outputs.len() as u64) + encode_outputs(outputs)
}

/// A list of outputs at the start of the bytes: a number, then as many outputs.
pub open spec fn parse_output_list(bytes: Seq<u8>) -> Option<(Seq<TxOutputView>, Seq<u8>)> {
    match parse_len(bytes) {
        Some((count, behind_count)) => parse_outputs(behind_count, count as nat),
        None => None,
    }
}

/// The encoding of a list of outputs. It is read back as this list.
pub fn serialize_outputs(outputs: &Vec<TxOutput>) -> (bytes: Vec<u8>)
    ensures
        bytes@ == encode_output_list(outputs_view(outputs@)),
        parse_output_list(bytes@) == Some((outputs_view(outputs@), Seq::<u8>::empty())),
{
    let mut bytes: Vec<u8> = Vec::new();
    write_outputs(&mut bytes, outputs);
    proof {
        let views = outputs_view(outputs@);
        assert(bytes@ =~= encode_output_list(views));
        lemma_parse_len_encoding(outputs@.len() as usize, encode_outputs(views));
        lemma_parse_outputs_encoding(views, Seq::empty());
        assert(encode_outputs(views) + Seq::<u8>::empty() =~= encode_outputs(views));
    }
    bytes
}

/// The list of outputs that a prefix of the bytes encodes; `None` where no prefix encodes
/// one.
pub fn deserialize_outputs(bytes: &[u8]) -> (outputs: Option<Vec<TxOutput>>)
    ensures
        match outputs {
            Some(o) => parse_output_list(bytes@) matches Some((views, _)) && outputs_view(o@)
                == views,
            None => parse_output_list(bytes@) is None,
        },
{
    assert(bytes@.skip(0) =~= bytes@);
    let (count, pos) = match read_len(bytes, 0) {
        Some(read) => read,
        None => {
            return None;
        },
    };
    match read_outputs(bytes, pos, count) {
        Some((outputs, _)) => Some(outputs),
        None => None,
    }
}

/// A copy of a list of inputs.
pub fn clone_inputs(inputs: &[TxInput]) -> (copy: Vec<TxInput>)
    ensures
        inputs_view(copy@) == inputs_view(inputs@),
{
    let mut copy: Vec<TxInput> = Vec::new();
    let mut i: usize = 0;
    while i < inputs.len()
        invariant
            i <= inputs@.len(),
            copy@.len() == i,
            forall|j: int| 0 <= j < i ==> copy@[j]@ == inputs@[j]@,
        decreases inputs@.len() - i,
    {
        copy.push(inputs[i].clone());
        i = i + 1;
    }
    assert(inputs_view(copy@) =~= inputs_view(inputs@));
    copy
}

/// The views of a list of transactions.
pub open spec fn transactions_view(transactions: Seq<Transaction>) -> Seq<TransactionView> {
    Seq::new(transactions.len(), |i: int| transactions[i]@)
}

/// A copy of a list of transactions.
pub fn clone_transactions(transactions: &[Transaction]) -> (copy: Vec<Transaction>)
    ensures
        transactions_view(copy@) == transactions_view(transactions@),
{
    let mut copy: Vec<Transaction> = Vec::new();
    let mut i: usize = 0;
    while i < transactions.len()
        invariant
            i <= transactions@.len(),
            copy@.len() == i,
            forall|j: int| 0 <= j < i ==> copy@[j]@ == transactions@[j]@,
        decreases transactions@.len() - i,
    {
        copy.push(transactions[i].clone());
        i = i + 1;
    }
    assert(transactions_view(copy@) =~= transactions_view(transactions@));
    copy
}

/// A transfer of value: outputs of earlier transactions go in, new outputs come out.
#[derive(Debug)]
pub struct Transaction {
    id: Vec<u8>,
    vin: Vec<TxInput>,
    vout: Vec<TxOutput>,
}

pub struct TransactionView {
    pub id: Seq<u8>,
    pub vin: Seq<TxInputView>,
    pub vout: Seq<TxOutputView>,
}

impl View for Transaction {
    type V = TransactionView;

    closed spec fn view(&self) -> TransactionView {
        TransactionView {
            id: self.id@,
            vin: inputs_view(self.vin@),
            vout: outputs_view(self.vout@),
        }
    }
}

impl Clone for Transaction {
    fn clone(&self) -> (copy: Self)
        ensures
            copy@ == self@,
    {
        Transaction {
            id: self.id.clone(),
            vin: clone_inputs(self.vin.as_slice()),
            vout: clone_outputs(self.vout.as_slice()),
        }
    }
}

impl TransactionView {
    /// A coinbase has one input, and that input has no key.
    pub open spec fn is_coinbase(self) -> bool {
        self.vin.len() == 1 && self.vin[0].pub_key.len() == 0
    }

    /// What follows the id in the encoding: the inputs and the outputs, each list behind
    /// its length.
    pub open spec fn encoded_body(self) -> Seq<u8> {
        encode_u64(self.vin.len() as u64) + encode_inputs(self.vin) + encode_u64(
            self.vout.len() as u64,
        ) + encode_outputs(self.vout)
    }

    /// The encoding of a transaction: id, inputs, outputs.
    pub open spec fn encoding(self) -> Seq<u8> {
        encode_bytes(self.id) + self.encoded_body()
    }

    /// What is digested to name a transaction: its encoding with the id left empty.
    pub open spec fn digest_input(self) -> Seq<u8> {
        encode_bytes(Seq::empty()) + self.encoded_body()
    }

    /// The digest that names a transaction.
    pub open spec fn digest(self) -> Seq<u8> {
        spec_sha256(self.digest_input())
    }

    /// The same transaction with the signature and the key of every input removed.
    pub open spec fn trimmed(self) -> TransactionView {
        TransactionView {
            id: self.id,
            vin: Seq::new(
                self.vin.len(),
                |i: int| TxInputView::unsigned(self.vin[i].txid, self.vin[i].vout),
            ),
            vout: self.vout,
        }
    }

    /// The same transaction with another key in input `index`.
    pub open spec fn with_input_key(self, index: int, key: Seq<u8>) -> TransactionView {
        TransactionView {
            id: self.id,
            vin: self.vin.update(index, TxInputView { pub_key: key, ..self.vin[index] }),
            vout: self.vout,
        }
    }

    /// What the signature of input `index` is made over and checked against: the trimmed
    /// transaction with the key hash of the spent output in the place of that input's key.
    pub open spec fn signing_input(self, index: int, key_hash: Seq<u8>) -> Seq<u8> {
        self.trimmed().with_input_key(index, key_hash).digest_input()
    }

    /// The coinbase that pays `INCENTIVE` to `key_hash` and carries `tag` as its mark.
    pub open spec fn coinbase(tag: Seq<u8>, key_hash: Seq<u8>) -> TransactionView {
        let body = TransactionView {
            id: Seq::empty(),
            vin: seq![TxInputView { signature: tag, ..TxInputView::unsigned(Seq::empty(), 0) }],
            vout: seq![TxOutputView { value: INCENTIVE, pub_key_hash: key_hash }],
        };
        TransactionView { id: body.digest(), ..body }
    }

    /// The key hash that locks the output which input `index` spends, if the ledger holds
    /// that output.
    pub open spec fn spent_key_hash(self, ledger: LedgerView, index: int) -> Option<Seq<u8>> {
        match ledger.find_transaction(self.vin[index].txid) {
            Some(spent) => if self.vin[index].vout < spent.vout.len() {
                Some(spent.vout[self.vin[index].vout as int].pub_key_hash)
            } else {
                None
            },
            None => None,
        }
    }

    /// Whether the message of input `index` can be made: the ledger holds the output that
    /// is spent, and what is to be signed is short enough to digest.
    pub open spec fn input_signable(self, ledger: LedgerView, index: int) -> bool {
        match self.spent_key_hash(ledger, index) {
            Some(key_hash) => digest_input_ok(self.signing_input(index, key_hash).len()),
            None => false,
        }
    }

    /// The message that the signature of input `index` is made over.
    pub open spec fn signing_digest(self, ledger: LedgerView, index: int) -> Seq<u8> {
        spec_sha256(self.signing_input(index, self.spent_key_hash(ledger, index)->0))
    }

    /// Whether input `index` carries a signature of its message under its own key.
    pub open spec fn input_verifies(self, ledger: LedgerView, index: int) -> bool {
        &&& self.input_signable(ledger, index)
        &&& spec_ecdsa_verify(
            self.vin[index].pub_key,
            self.vin[index].signature,
            self.signing_digest(ledger, index),
        )
    }

    /// Input `index` is the first that does not verify.
    pub open spec fn first_failure(self, ledger: LedgerView, index: int) -> bool {
        &&& 0 <= index < self.vin.len()
        &&& !self.input_verifies(ledger, index)
        &&& forall|j: int| 0 <= j < index ==> self.input_verifies(ledger, j)
    }

    /// Input `index` is the first whose message cannot be made.
    pub open spec fn first_unsignable(self, ledger: LedgerView, index: int) -> bool {
        &&& 0 <= index < self.vin.len()
        &&& !self.input_signable(ledger, index)
        &&& forall|j: int| 0 <= j < index ==> self.input_signable(ledger, j)
    }

    /// A transaction verifies against a ledger when it is a coinbase, or every one of its
    /// inputs verifies.
    pub open spec fn verifies(self, ledger: LedgerView) -> bool {
        self.is_coinbase() || forall|i: int|
            0 <= i < self.vin.len() ==> self.input_verifies(ledger, i)
    }

    /// The same transaction but for the signatures of its inputs.
    pub open spec fn same_but_signatures(self, other: TransactionView) -> bool {
        &&& self.id == other.id
        &&& self.vout == other.vout
        &&& self.vin.len() == other.vin.len()
        &&& forall|i: int|
            0 <= i < self.vin.len() ==> #[trigger] self.vin[i] == (TxInputView {
                signature: self.vin[i].signature,
                ..other.vin[i]
            })
    }
}

/// The inputs that spend the first `count` positions of an entry, with the spender's key
/// and no signature yet.
pub open spec fn entry_inputs(entry: (Seq<u8>, Seq<usize>), pub_key: Seq<u8>, count: nat) -> Seq<
    TxInputView,
> {
    Seq::new(
        count,
        |j: int| TxInputView { pub_key, ..TxInputView::unsigned(entry.0, entry.1[j]) },
    )
}

/// The inputs that spend the picked outputs, entry by entry.
pub open spec fn selected_inputs(selected: Seq<(Seq<u8>, Seq<usize>)>, pub_key: Seq<u8>) -> Seq<
    TxInputView,
>
    decreases selected.len(),
{
    if selected.len() == 0 {
        Seq::empty()
    } else {
        selected_inputs(selected.drop_last(), pub_key) + entry_inputs(
            selected.last(),
            pub_key,
            selected.last().1.len(),
        )
    }
}

/// The transfer of `amount` from a wallet to the key hash `to`, before it is signed: the
/// inputs spend the outputs that the chainstate picks for the wallet's key hash, the first
/// output pays the amount, and a second one returns to `from` what the inputs hold beyond
/// it. The id is the digest of this.
pub open spec fn spending(
    chainstate: ChainstateView,
    wallet: WalletView,
    amount: i32,
    to: Seq<u8>,
    from: Seq<u8>,
) -> TransactionView {
    let selection = select_spendable(
        chainstate.entries,
        spec_hash_pub_key(wallet.pub_key),
        amount as int,
        chainstate.entries.len(),
    );
    let paid = seq![TxOutputView { value: amount, pub_key_hash: to }];
    let body = TransactionView {
        id: Seq::empty(),
        vin: selected_inputs(selection.outputs, wallet.pub_key),
        vout: if selection.accumulated > amount {
            paid.push(
                TxOutputView { value: (selection.accumulated - amount) as i32, pub_key_hash: from },
            )
        } else {
            paid
        },
    };
    TransactionView { id: body.digest(), ..body }
}

/// Whether every transaction of a list verifies against a ledger.
pub open spec fn all_verify(transactions: Seq<TransactionView>, ledger: LedgerView) -> bool {
    forall|i: int| 0 <= i < transactions.len() ==> (#[trigger] transactions[i]).verifies(ledger)
}

/// Signs each message with the key pair of a document.
fn sign_messages(pkcs8: &[u8], messages: &Vec<Vec<u8>>) -> (signatures: Result<
    Vec<Vec<u8>>,
    BlockchainError,
>)
    requires
        forall|j: int| 0 <= j < messages@.len() ==> (#[trigger] messages@[j])@.len() == 32,
    ensures
        match signatures {
            Ok(s) => {
                &&& s@.len() == messages@.len()
                &&& forall|j: int|
                    0 <= j < messages@.len() ==> {
                        &&& (#[trigger] s@[j])@.len() == 64
                        &&& spec_pkcs8_public_key(pkcs8@) matches Some(key)
                        &&& spec_ecdsa_verify(key, s@[j]@, messages@[j]@)
                    }
            },
            Err(e) => e == BlockchainError::CryptoError && messages@.len() > 0,
        },
{
    let mut signatures: Vec<Vec<u8>> = Vec::new();
    let mut idx: usize = 0;
    while idx < messages.len()
        invariant
            idx <= messages@.len(),
            signatures@.len() == idx,
            forall|j: int| 0 <= j < messages@.len() ==> (#[trigger] messages@[j])@.len() == 32,
            forall|j: int|
                0 <= j < idx ==> {
                    &&& (#[trigger] signatures@[j])@.len() == 64
                    &&& spec_pkcs8_public_key(pkcs8@) matches Some(key)
                    &&& spec_ecdsa_verify(key, signatures@[j]@, messages@[j]@)
                },
        decreases messages@.len() - idx,
    {
        assert(messages@[idx as int]@.len() == 32);
        match ecdsa_p256_sha256_sign_digest(pkcs8, messages[idx].as_slice()) {
            Ok(signature) => {
                signatures.push(signature);
            },
            Err(e) => {
                return Err(e);
            },
        }
        idx = idx + 1;
    }
    Ok(signatures)
}

fn write_inputs(out: &mut Vec<u8>, inputs: &Vec<TxInput>)
    ensures
        final(out)@ == old(out)@ + encode_u64(inputs@.len() as u64) + encode_inputs(
            inputs_view(inputs@),
        ),
        inputs@.len() <= usize::MAX,
        forall|j: int| 0 <= j < inputs@.len() ==> input_storable(#[trigger] inputs_view(inputs@)[j]),
{
    write_u64(out, inputs.len() as u64);
    let ghost start = out@;
    let mut i: usize = 0;
    while i < inputs.len()
        invariant
            i <= inputs@.len(),
            out@ == start + encode_inputs(inputs_view(inputs@).take(i as int)),
            forall|j: int| 0 <= j < i ==> input_storable(#[trigger] inputs_view(inputs@)[j]),
        decreases inputs@.len() - i,
    {
        inputs[i].write(out);
        proof {
            let all = inputs_view(inputs@);
            assert(all.take(i + 1).drop_last() =~= all.take(i as int));
            assert(all.take(i + 1).last() == inputs@[i as int]@);
            assert(out@ =~= start + encode_inputs(all.take(i + 1)));
        }
        i = i + 1;
    }
    assert(inputs_view(inputs@).take(i as int) =~= inputs_view(inputs@));
}

fn write_outputs(out: &mut Vec<u8>, outputs: &Vec<TxOutput>)
    ensures
        final(out)@ == old(out)@ + encode_u64(outputs@.len() as u64) + encode_outputs(
            outputs_view(outputs@),
        ),
        outputs@.len() <= usize::MAX,
        forall|j: int|
            0 <= j < outputs@.len() ==> output_storable(#[trigger] outputs_view(outputs@)[j]),
{
    write_u64(out, outputs.len() as u64);
    let ghost start = out@;
    let mut i: usize = 0;
    while i < outputs.len()
        invariant
            i <= outputs@.len(),
            out@ == start + encode_outputs(outputs_view(outputs@).take(i as int)),
            forall|j: int| 0 <= j < i ==> output_storable(#[trigger] outputs_view(outputs@)[j]),
        decreases outputs@.len() - i,
    {
        outputs[i].write(out);
        proof {
            let all = outputs_view(outputs@);
            assert(all.take(i + 1).drop_last() =~= all.take(i as int));
            assert(all.take(i + 1).last() == outputs@[i as int]@);
            assert(out@ =~= start + encode_outputs(all.take(i + 1)));
        }
        i = i + 1;
    }
    assert(outputs_view(outputs@).take(i as int) =~= outputs_view(outputs@));
}

impl Transaction {
    /// A transaction of the three given fields.
    pub fn from_parts(id: Vec<u8>, vin: Vec<TxInput>, vout: Vec<TxOutput>) -> (tx: Self)
        ensures
            tx@ == (TransactionView {
                id: id@,
                vin: inputs_view(vin@),
                vout: outputs_view(vout@),
            }),
    {
        Transaction { id, vin, vout }
    }

    /// The coinbase that pays `INCENTIVE` to the key hash inside `to`, with a given mark in
    /// the place of the signature. It is refused as an address where the address holds no
    /// key hash, and as a failure of the digest where the key hash is too long to digest.
    pub fn coinbase_with_tag(to: &str, tag: Vec<u8>) -> (tx: Result<Self, BlockchainError>)
        ensures
            match tx {
                Ok(t) => {
                    &&& spec_address_key_hash(to@) matches Some(hash)
                    &&& t@ == TransactionView::coinbase(tag@, hash)
                    &&& digest_input_ok(t@.digest_input().len())
                    &&& t@.id.len() == 32
                },
                Err(e) => match spec_address_key_hash(to@) {
                    None => e == BlockchainError::InvalidAddress,
                    Some(hash) => {
                        &&& e == BlockchainError::CryptoError
                        &&& !digest_input_ok(
                            TransactionView::coinbase(tag@, hash).digest_input().len(),
                        )
                    },
                },
            },
    {
        let txout = match TxOutput::new(INCENTIVE, to) {
            Ok(txout) => txout,
            Err(_) => {
                return Err(BlockchainError::InvalidAddress);
            },
        };
        let mut txinput = TxInput::default();
        txinput.signature = tag;
        let mut vin: Vec<TxInput> = Vec::new();
        vin.push(txinput);
        let mut vout: Vec<TxOutput> = Vec::new();
        vout.push(txout);
        let mut tx = Transaction { id: Vec::new(), vin, vout };
        proof {
            let hash = spec_address_key_hash(to@)->0;
            assert(tx@.vin =~= TransactionView::coinbase(tag@, hash).vin);
            assert(tx@.vout =~= TransactionView::coinbase(tag@, hash).vout);
        }
        match tx.hash() {
            Some(id) => {
                tx.id = id;
                Ok(tx)
            },
            None => Err(BlockchainError::CryptoError),
        }
    }

    /// A coinbase that pays `INCENTIVE` to the key hash inside `to`. Sixteen random bytes in
    /// the place of the signature keep two such transactions apart.
    pub fn coinbase_tx(to: &str) -> (tx: Result<Self, BlockchainError>)
        ensures
            match tx {
                Ok(t) => {
                    &&& spec_address_key_hash(to@) matches Some(hash)
                    &&& t@ == TransactionView::coinbase(t@.vin[0].signature, hash)
                    &&& t@.vin[0].signature.len() == 16
                    &&& t@.is_coinbase()
                    &&& digest_input_ok(t@.digest_input().len())
                    &&& t@.id.len() == 32
                },
                Err(e) => match spec_address_key_hash(to@) {
                    None => e == BlockchainError::InvalidAddress,
                    Some(hash) => {
                        &&& e == BlockchainError::CryptoError
                        &&& exists|tag: Seq<u8>|
                            tag.len() == 16 && !digest_input_ok(
                                (#[trigger] TransactionView::coinbase(
                                    tag,
                                    hash,
                                )).digest_input().len(),
                            )
                    },
                },
            },
    {
        let tag = random_tag();
        let ghost mark = tag@;
        let tx = Self::coinbase_with_tag(to, tag);
        proof {
            if tx is Err && spec_address_key_hash(to@) is Some {
                let hash = spec_address_key_hash(to@)->0;
                assert(!digest_input_ok(
                    TransactionView::coinbase(mark, hash).digest_input().len(),
                ));
            }
        }
        tx
    }

    pub fn get_id(&self) -> (id: &[u8])
        ensures
            id@ == self@.id,
    {
        self.id.as_slice()
    }

    pub fn get_id_bytes(&self) -> (id: Vec<u8>)
        ensures
            id@ == self@.id,
    {
        self.id.clone()
    }

    pub fn get_vin(&self) -> (vin: &[TxInput])
        ensures
            inputs_view(vin@) == self@.vin,
    {
        self.vin.as_slice()
    }

    pub fn get_vout(&self) -> (vout: &[TxOutput])
        ensures
            outputs_view(vout@) == self@.vout,
    {
        self.vout.as_slice()
    }

    /// Appends the encoding of the transaction.
    pub fn write(&self, out: &mut Vec<u8>)
        ensures
            final(out)@ == old(out)@ + self@.encoding(),
            transaction_storable(self@),
    {
        write_bytes(out, self.id.as_slice());
        write_inputs(out, &self.vin);
        write_outputs(out, &self.vout);
        assert(final(out)@ =~= old(out)@ + self@.encoding());
    }

    /// The encoding of the transaction. It is read back as this transaction.
    pub fn serialize(&self) -> (bytes: Vec<u8>)
        ensures
            bytes@ == self@.encoding(),
            parse_transaction(bytes@) == Some((self@, Seq::<u8>::empty())),
    {
        let mut bytes: Vec<u8> = Vec::new();
        self.write(&mut bytes);
        proof {
            lemma_parse_transaction_encoding(self@, Seq::empty());
            assert(self@.encoding() + Seq::<u8>::empty() =~= self@.encoding());
        }
        bytes
    }

    /// The transaction that a prefix of the bytes encodes; `None` where no prefix encodes a
    /// transaction. An output with a negative amount encodes none.
    pub fn deserialize(bytes: &[u8]) -> (transaction: Option<Self>)
        ensures
            match transaction {
                Some(t) => parse_transaction(bytes@) matches Some((view, _)) && t@ == view,
                None => parse_transaction(bytes@) is None,
            },
    {
        assert(bytes@.skip(0) =~= bytes@);
        match read_transaction(bytes, 0) {
            Some((transaction, _)) => Some(transaction),
            None => None,
        }
    }

    /// A copy without the signatures and keys of the inputs.
    pub fn trimmed_copy(&self) -> (copy: Self)
        ensures
            copy@ == self@.trimmed(),
    {
        let mut inputs: Vec<TxInput> = Vec::new();
        let mut i: usize = 0;
        while i < self.vin.len()
            invariant
                i <= self.vin@.len(),
                inputs@.len() == i,
                forall|j: int|
                    0 <= j < i ==> inputs@[j]@ == TxInputView::unsigned(
                        self.vin@[j]@.txid,
                        self.vin@[j]@.vout,
                    ),
            decreases self.vin@.len() - i,
        {
            let input = &self.vin[i];
            inputs.push(TxInput::new(input.get_txid(), input.get_vout()));
            i = i + 1;
        }
        let outputs = clone_outputs(self.vout.as_slice());
        let copy = Transaction { id: self.id.clone(), vin: inputs, vout: outputs };
        assert(copy@.vin =~= self@.trimmed().vin);
        copy
    }

    pub fn is_coinbase(&self) -> (coinbase: bool)
        ensures
            coinbase == self@.is_coinbase(),
            coinbase <==> self@.vin.len() == 1 && self@.vin[0].pub_key.len() == 0,
    {
        self.vin.len() == 1 && self.vin[0].pub_key.len() == 0
    }

    /// A signed transfer of `amount` from the wallet held under `from` to the address `to`:
    /// see `spending`. The reasons to refuse are tried in this order: no wallet under
    /// `from`; the outputs picked hold less than the amount; `to` holds no key hash; the
    /// amount is negative; the transfer is too long to digest; an input cannot be signed.
    /// A transfer that spends nothing needs no signature, and is not refused for the last
    /// reason. The outputs picked hold less than the amount exactly when the chainstate
    /// holds less than the amount for the wallet.
    #[verifier::rlimit(50)]
    pub fn utxo_transaction(
        from: &str,
        to: &str,
        amount: i32,
        utxo_set: &UTXOSet,
        wallets: &Wallets,
    ) -> (tx: Result<Transaction, BlockchainError>)
        ensures
            ({
                let chainstate = utxo_set@;
                let known = wallets@.dom().contains(from@);
                let wallet = wallets@[from@];
                let selection = select_spendable(
                    chainstate.entries,
                    spec_hash_pub_key(wallet.pub_key),
                    amount as int,
                    chainstate.entries.len(),
                );
                let to_hash = spec_address_key_hash(to@);
                let from_hash = spec_address_key_hash(from@);
                let unsigned = spending(chainstate, wallet, amount, to_hash->0, from_hash->0);
                &&& known ==> wallet.held_under(from@)
                &&& known ==> (selection.accumulated < amount <==> balance(
                    chainstate.entries,
                    spec_hash_pub_key(wallet.pub_key),
                ) < amount)
                &&& known && selection.accumulated >= amount >= 0 && to_hash is Some
                    && digest_input_ok(unsigned.digest_input().len()) && unsigned.vin.len() == 0
                    ==> tx is Ok
                &&& match tx {
                    Ok(t) => {
                        &&& known
                        &&& selection.accumulated >= amount >= 0
                        &&& to_hash is Some
                        &&& digest_input_ok(unsigned.digest_input().len())
                        &&& t@.same_but_signatures(unsigned)
                        &&& t@.id.len() == 32
                        &&& forall|i: int|
                            0 <= i < unsigned.vin.len() ==> {
                                &&& unsigned.input_signable(chainstate.ledger, i)
                                &&& (#[trigger] t@.vin[i]).signature.len() == 64
                            }
                        &&& t@.verifies(chainstate.ledger)
                    },
                    Err(e) => e == if !known {
                        BlockchainError::WalletNotFound
                    } else if selection.accumulated < amount {
                        BlockchainError::InsufficientFunds
                    } else if to_hash is None {
                        BlockchainError::InvalidAddress
                    } else if amount < 0 {
                        BlockchainError::InvalidTransaction
                    } else if !digest_input_ok(unsigned.digest_input().len()) {
                        BlockchainError::CryptoError
                    } else if exists|k: int|
                        unsigned.first_unsignable(chainstate.ledger, k) && unsigned.spent_key_hash(
                            chainstate.ledger,
                            k,
                        ) is None {
                        BlockchainError::InvalidTransaction
                    } else {
                        BlockchainError::CryptoError
                    },
                }
            }),
    {
        let wallet = match wallets.get_wallet(from) {
            Some(wallet) => wallet,
            None => {
                return Err(BlockchainError::WalletNotFound);
            },
        };
        let pub_key_hash = hash_pub_key(wallet.get_pub_key());
        let (accumulated_amount, valid_outputs) = utxo_set.find_spendable_outputs(
            pub_key_hash.as_slice(),
            amount,
        );
        if accumulated_amount < amount as i64 {
            return Err(BlockchainError::InsufficientFunds);
        }
        let ghost selected = selection_view(valid_outputs@);
        let mut inputs: Vec<TxInput> = Vec::new();
        let mut i: usize = 0;
        assert(selected.take(0) =~= Seq::empty());
        assert(inputs_view(inputs@) =~= Seq::empty());
        while i < valid_outputs.len()
            invariant
                i <= valid_outputs@.len(),
                selected == selection_view(valid_outputs@),
                wallet@.valid(),
                inputs_view(inputs@) == selected_inputs(selected.take(i as int), wallet@.pub_key),
            decreases valid_outputs@.len() - i,
        {
            let txid = &valid_outputs[i].0;
            let outs = &valid_outputs[i].1;
            let ghost before = inputs_view(inputs@);
            let ghost entry = selected[i as int];
            let mut idx: usize = 0;
            assert(before + entry_inputs(entry, wallet@.pub_key, 0) =~= before);
            while idx < outs.len()
                invariant
                    idx <= outs@.len(),
                    entry == (txid@, outs@),
                    wallet@.valid(),
                    inputs_view(inputs@) == before + entry_inputs(
                        entry,
                        wallet@.pub_key,
                        idx as nat,
                    ),
                decreases outs@.len() - idx,
            {
                let ghost so_far = inputs_view(inputs@);
                let input = TxInput {
                    txid: txid.clone(),
                    vout: outs[idx],
                    signature: Vec::new(),
                    pub_key: copy_bytes(wallet.get_pub_key()),
                };
                inputs.push(input);
                proof {
                    assert(inputs_view(inputs@) =~= so_far.push(input@));
                    assert(inputs_view(inputs@) =~= before + entry_inputs(
                        entry,
                        wallet@.pub_key,
                        (idx + 1) as nat,
                    ));
                }
                idx = idx + 1;
            }
            proof {
                assert(selected.take(i + 1).drop_last() =~= selected.take(i as int));
                assert(selected.take(i + 1).last() == entry);
            }
            i = i + 1;
        }
        assert(selected.take(i as int) =~= selected);
        let mut outputs: Vec<TxOutput> = Vec::new();
        match TxOutput::new(amount, to) {
            Ok(output) => {
                outputs.push(output);
            },
            Err(e) => {
                return Err(e);
            },
        }
        assert(outputs_view(outputs@) =~= seq![outputs@[0]@]);
        if accumulated_amount > amount as i64 {
            let ghost paid = outputs_view(outputs@);
            match TxOutput::new((accumulated_amount - amount as i64) as i32, from) {
                Ok(output) => {
                    outputs.push(output);
                    assert(outputs_view(outputs@) =~= paid.push(output@));
                },
                Err(e) => {
                    return Err(e);
                },
            }
        }
        let mut tx = Transaction { id: Vec::new(), vin: inputs, vout: outputs };
        let ghost unsigned = spending(
            utxo_set@,
            wallet@,
            amount,
            spec_address_key_hash(to@)->0,
            spec_address_key_hash(from@)->0,
        );
        proof {
            assert(tx@.vout =~= unsigned.vout);
            assert(tx@.vin == unsigned.vin);
        }
        match tx.hash() {
            Some(id) => {
                tx.id = id;
            },
            None => {
                return Err(BlockchainError::CryptoError);
            },
        }
        assert(tx@ == unsigned);
        match tx.sign(utxo_set.get_blockchain(), wallet.get_pkcs8()) {
            Ok(_) => {
                proof {
                    let ledger = utxo_set@.ledger;
                    assert forall|i: int| 0 <= i < unsigned.vin.len() implies unsigned.input_signable(
                        ledger,
                        i,
                    ) by {
                        assert(tx@.vin[i].signature.len() == 64);
                    }
                    lemma_same_but_signatures(tx@, unsigned, ledger);
                    lemma_selected_keys(
                        select_spendable(
                            utxo_set@.entries,
                            spec_hash_pub_key(wallet@.pub_key),
                            amount as int,
                            utxo_set@.entries.len(),
                        ).outputs,
                        wallet@.pub_key,
                    );
                    assert forall|i: int| 0 <= i < tx@.vin.len() implies tx@.input_verifies(
                        ledger,
                        i,
                    ) by {
                        assert(tx@.vin[i].signature.len() == 64);
                        assert(unsigned.vin[i].pub_key == wallet@.pub_key);
                    }
                }
                Ok(tx)
            },
            Err(e) => Err(e),
        }
    }

    fn set_input_key(&mut self, index: usize, key: Vec<u8>)
        requires
            index < old(self)@.vin.len(),
        ensures
            final(self)@ == old(self)@.with_input_key(index as int, key@),
    {
        let mut input = self.vin[index].clone();
        input.pub_key = key;
        self.vin.set(index, input);
        assert(final(self)@.vin =~= old(self)@.with_input_key(index as int, key@).vin);
    }

    /// The message of input `index`: the digest of the trimmed transaction with, in the
    /// place of that input's key, the key hash of the output that it spends. `self` is the
    /// trimmed transaction, and is left as it was.
    fn signing_message(&mut self, ledger: &Blockchain, index: usize) -> (message: Result<
        Vec<u8>,
        BlockchainError,
    >)
        requires
            index < old(self)@.vin.len(),
            old(self)@ == old(self)@.trimmed(),
        ensures
            final(self)@ == old(self)@,
            match message {
                Ok(m) => {
                    &&& old(self)@.input_signable(ledger@, index as int)
                    &&& m@ == old(self)@.signing_digest(ledger@, index as int)
                    &&& m@.len() == 32
                },
                Err(e) => {
                    &&& !old(self)@.input_signable(ledger@, index as int)
                    &&& e == if old(self)@.spent_key_hash(ledger@, index as int) is None {
                        BlockchainError::InvalidTransaction
                    } else {
                        BlockchainError::CryptoError
                    }
                },
            },
    {
        let prev_tx = match ledger.find_transaction(self.vin[index].get_txid()) {
            Some(prev_tx) => prev_tx,
            None => {
                return Err(BlockchainError::InvalidTransaction);
            },
        };
        let spent = self.vin[index].get_vout();
        if spent >= prev_tx.vout.len() {
            return Err(BlockchainError::InvalidTransaction);
        }
        self.set_input_key(index, copy_bytes(prev_tx.vout[spent].get_pub_key_hash()));
        let digest = self.hash();
        self.set_input_key(index, Vec::new());
        proof {
            assert(final(self)@.vin =~= old(self)@.vin);
            assert(old(self)@.trimmed().trimmed().vin =~= old(self)@.trimmed().vin);
        }
        match digest {
            Some(digest) => Ok(digest),
            None => Err(BlockchainError::CryptoError),
        }
    }

    /// Signs every input with the key pair in `pkcs8`. The message of an input is the
    /// digest of the trimmed transaction with, in the place of that input's key, the key
    /// hash of the output that it spends. Nothing is changed where an input cannot be
    /// signed.
    pub fn sign(&mut self, blockchain: &Blockchain, pkcs8: &[u8]) -> (signed: Result<
        (),
        BlockchainError,
    >)
        ensures
            match signed {
                Ok(_) => {
                    &&& final(self)@.same_but_signatures(old(self)@)
                    &&& forall|i: int|
                        0 <= i < old(self)@.vin.len() ==> {
                            &&& old(self)@.input_signable(blockchain@, i)
                            &&& (#[trigger] final(self)@.vin[i]).signature.len() == 64
                            &&& spec_pkcs8_public_key(pkcs8@) matches Some(key)
                            &&& spec_ecdsa_verify(
                                key,
                                final(self)@.vin[i].signature,
                                old(self)@.signing_digest(blockchain@, i),
                            )
                        }
                },
                Err(e) => {
                    &&& final(self)@ == old(self)@
                    &&& old(self)@.vin.len() > 0
                    &&& e == BlockchainError::InvalidTransaction || e
                        == BlockchainError::CryptoError
                    &&& e == BlockchainError::InvalidTransaction <==> exists|k: int|
                        old(self)@.first_unsignable(blockchain@, k) && old(self)@.spent_key_hash(
                            blockchain@,
                            k,
                        ) is None
                },
            },
    {
        let messages = match self.signing_messages(blockchain) {
            Ok(messages) => messages,
            Err(e) => {
                return Err(e);
            },
        };
        let signatures = match sign_messages(pkcs8, &messages) {
            Ok(signatures) => signatures,
            Err(e) => {
                proof {
                    assert forall|k: int| !self@.first_unsignable(blockchain@, k) by {
                        if 0 <= k < self@.vin.len() {
                            assert(self@.input_signable(blockchain@, k));
                        }
                    }
                }
                return Err(e);
            },
        };
        let ghost this = self@;
        self.set_signatures(&signatures);
        proof {
            assert forall|i: int| 0 <= i < this.vin.len() implies {
                &&& this.input_signable(blockchain@, i)
                &&& (#[trigger] self@.vin[i]).signature.len() == 64
                &&& spec_pkcs8_public_key(pkcs8@) matches Some(key)
                &&& spec_ecdsa_verify(
                    key,
                    self@.vin[i].signature,
                    this.signing_digest(blockchain@, i),
                )
            } by {
                assert(self@.vin[i].signature == signatures@[i]@);
                assert(messages@[i]@ == this.signing_digest(blockchain@, i));
            }
        }
        Ok(())
    }

    /// The messages of the inputs, in order; the first input whose message cannot be made
    /// gives the error.
    #[verifier::rlimit(50)]
    fn signing_messages(&self, blockchain: &Blockchain) -> (messages: Result<
        Vec<Vec<u8>>,
        BlockchainError,
    >)
        ensures
            match messages {
                Ok(m) => {
                    &&& m@.len() == self@.vin.len()
                    &&& forall|j: int|
                        0 <= j < self@.vin.len() ==> self@.input_signable(blockchain@, j)
                    &&& forall|j: int|
                        0 <= j < self@.vin.len() ==> {
                            &&& (#[trigger] m@[j])@ == self@.signing_digest(blockchain@, j)
                            &&& m@[j]@.len() == 32
                        }
                },
                Err(e) => {
                    &&& exists|k: int| self@.first_unsignable(blockchain@, k)
                    &&& e == BlockchainError::InvalidTransaction || e
                        == BlockchainError::CryptoError
                    &&& e == BlockchainError::InvalidTransaction <==> exists|k: int|
                        self@.first_unsignable(blockchain@, k) && self@.spent_key_hash(
                            blockchain@,
                            k,
                        ) is None
                },
            },
    {
        let mut tx_copy = self.trimmed_copy();
        let mut messages: Vec<Vec<u8>> = Vec::new();
        let ghost this = self@;
        proof {
            lemma_trimmed_signing(this);
            assert(this.trimmed().trimmed().vin =~= this.trimmed().vin);
        }
        let mut idx: usize = 0;
        while idx < self.vin.len()
            invariant
                idx <= self.vin@.len(),
                this == self@,
                tx_copy@ == this.trimmed(),
                tx_copy@ == tx_copy@.trimmed(),
                messages@.len() == idx,
                forall|j: int| 0 <= j < idx ==> this.input_signable(blockchain@, j),
                forall|j: int|
                    0 <= j < idx ==> {
                        &&& (#[trigger] messages@[j])@ == this.signing_digest(blockchain@, j)
                        &&& messages@[j]@.len() == 32
                    },
                forall|j: int, key_hash: Seq<u8>|
                    0 <= j < this.vin.len() ==> #[trigger] this.trimmed().signing_input(j, key_hash)
                        == this.signing_input(j, key_hash),
                forall|j: int|
                    0 <= j < this.vin.len() ==> #[trigger] this.trimmed().spent_key_hash(
                        blockchain@,
                        j,
                    ) == this.spent_key_hash(blockchain@, j),
            decreases self.vin@.len() - idx,
        {
            match tx_copy.signing_message(blockchain, idx) {
                Ok(message) => {
                    messages.push(message);
                },
                Err(e) => {
                    proof {
                        assert(this.first_unsignable(blockchain@, idx as int));
                        assert forall|k: int| this.first_unsignable(blockchain@, k) implies k
                            == idx by {
                            if k < idx {
                                assert(this.input_signable(blockchain@, k));
                            } else if k > idx {
                                assert(this.input_signable(blockchain@, idx as int));
                            }
                        }
                    }
                    return Err(e);
                },
            }
            idx = idx + 1;
        }
        Ok(messages)
    }

    /// Puts the signatures into the inputs, in order.
    fn set_signatures(&mut self, signatures: &Vec<Vec<u8>>)
        requires
            signatures@.len() == old(self)@.vin.len(),
        ensures
            final(self)@.same_but_signatures(old(self)@),
            forall|j: int|
                0 <= j < old(self)@.vin.len() ==> (#[trigger] final(self)@.vin[j]).signature
                    == signatures@[j]@,
    {
        let ghost this = self@;
        let mut idx: usize = 0;
        while idx < self.vin.len()
            invariant
                idx <= self.vin@.len(),
                self@.same_but_signatures(this),
                signatures@.len() == this.vin.len(),
                forall|j: int| 0 <= j < idx ==> (#[trigger] self@.vin[j]).signature
                    == signatures@[j]@,
            decreases self.vin@.len() - idx,
        {
            let mut input = self.vin[idx].clone();
            input.signature = signatures[idx].clone();
            let ghost before = self@;
            self.vin.set(idx, input);
            proof {
                assert(self@.vin =~= before.vin.update(idx as int, input@));
                assert forall|i: int| 0 <= i < self@.vin.len() implies #[trigger] self@.vin[i] == (
                TxInputView { signature: self@.vin[i].signature, ..this.vin[i] }) by {
                    assert(before.vin[i] == (TxInputView {
                        signature: before.vin[i].signature,
                        ..this.vin[i]
                    }));
                }
                assert forall|j: int| 0 <= j < idx + 1 implies (#[trigger] self@.vin[j]).signature
                    == signatures@[j]@ by {
                    if j < idx {
                        assert(before.vin[j].signature == signatures@[j]@);
                    }
                }
            }
            idx = idx + 1;
        }
    }

    /// Whether the transaction verifies against a ledger: a coinbase does; another one does
    /// when every input carries a signature of its message under its own key. The first
    /// input that does not verify decides: it is an error where the ledger does not hold the
    /// output that it spends, and `false` otherwise.
    #[verifier::rlimit(50)]
    pub fn verify(&self, blockchain: &Blockchain) -> (verified: Result<bool, BlockchainError>)
        ensures
            match verified {
                Ok(ok) => {
                    &&& ok == self@.verifies(blockchain@)
                    &&& !ok ==> exists|k: int|
                        self@.first_failure(blockchain@, k) && self@.spent_key_hash(blockchain@, k)
                            is Some
                },
                Err(e) => {
                    &&& e == BlockchainError::InvalidTransaction
                    &&& !self@.verifies(blockchain@)
                    &&& exists|k: int|
                        self@.first_failure(blockchain@, k) && self@.spent_key_hash(blockchain@, k)
                            is None
                },
            },
    {
        if self.is_coinbase() {
            return Ok(true);
        }
        let mut tx_copy = self.trimmed_copy();
        let ghost this = self@;
        proof {
            lemma_trimmed_signing(this);
            assert(this.trimmed().trimmed().vin =~= this.trimmed().vin);
        }
        let mut idx: usize = 0;
        while idx < self.vin.len()
            invariant
                idx <= self.vin@.len(),
                this == self@,
                !this.is_coinbase(),
                tx_copy@ == this.trimmed(),
                tx_copy@ == tx_copy@.trimmed(),
                forall|j: int| 0 <= j < idx ==> this.input_verifies(blockchain@, j),
                forall|j: int, key_hash: Seq<u8>|
                    0 <= j < this.vin.len() ==> #[trigger] this.trimmed().signing_input(j, key_hash)
                        == this.signing_input(j, key_hash),
                forall|j: int|
                    0 <= j < this.vin.len() ==> #[trigger] this.trimmed().spent_key_hash(
                        blockchain@,
                        j,
                    ) == this.spent_key_hash(blockchain@, j),
            decreases self.vin@.len() - idx,
        {
            let vin = &self.vin[idx];
            let message = match tx_copy.signing_message(blockchain, idx) {
                Ok(message) => message,
                Err(e) => {
                    proof {
                        assert(this.first_failure(blockchain@, idx as int));
                        assert(!this.input_verifies(blockchain@, idx as int));
                    }
                    match e {
                        BlockchainError::InvalidTransaction => {
                            return Err(BlockchainError::InvalidTransaction);
                        },
                        _ => {
                            return Ok(false);
                        },
                    }
                },
            };
            let verify = ecdsa_p256_sha256_sign_verify(
                vin.get_pub_key(),
                vin.get_signature(),
                message.as_slice(),
            );
            if !verify {
                proof {
                    assert(this.first_failure(blockchain@, idx as int));
                    assert(!this.input_verifies(blockchain@, idx as int));
                }
                return Ok(false);
            }
            idx = idx + 1;
        }
        Ok(true)
    }

    /// The digest that names the transaction; `None` where the encoding is too long to
    /// digest.
    pub fn hash(&self) -> (digest: Option<Vec<u8>>)
        ensures
            match digest {
                Some(d) => {
                    &&& digest_input_ok(self@.digest_input().len())
                    &&& d@ == self@.digest()
                    &&& d@.len() == 32
                },
                None => !digest_input_ok(self@.digest_input().len()),
            },
    {
        let mut bytes: Vec<u8> = Vec::new();
        let empty: Vec<u8> = Vec::new();
        write_bytes(&mut bytes, empty.as_slice());
        write_inputs(&mut bytes, &self.vin);
        write_outputs(&mut bytes, &self.vout);
        assert(bytes@ =~= self@.digest_input());
        if fits_digest(bytes.len()) {
            Some(sha256_digest(bytes.as_slice()))
        } else {
            None
        }
    }
}

/// Two transactions that differ in their signatures at most spend the same outputs, and
/// the same is signed for their inputs.
pub proof fn lemma_same_but_signatures(
    left: TransactionView,
    right: TransactionView,
    ledger: LedgerView,
)
    requires
        left.same_but_signatures(right),
    ensures
        left.trimmed() == right.trimmed(),
        forall|i: int|
            0 <= i < left.vin.len() ==> {
                &&& (#[trigger] left.vin[i]).pub_key == right.vin[i].pub_key
                &&& left.spent_key_hash(ledger, i) == right.spent_key_hash(ledger, i)
                &&& left.input_signable(ledger, i) == right.input_signable(ledger, i)
                &&& left.signing_digest(ledger, i) == right.signing_digest(ledger, i)
            },
{
    assert(left.trimmed().vin =~= right.trimmed().vin) by {
        assert forall|i: int| 0 <= i < left.vin.len() implies left.trimmed().vin[i]
            == right.trimmed().vin[i] by {
            assert(left.vin[i] == (TxInputView {
                signature: left.vin[i].signature,
                ..right.vin[i]
            }));
        }
    }
    assert forall|i: int| 0 <= i < left.vin.len() implies {
        &&& (#[trigger] left.vin[i]).pub_key == right.vin[i].pub_key
        &&& left.spent_key_hash(ledger, i) == right.spent_key_hash(ledger, i)
        &&& left.input_signable(ledger, i) == right.input_signable(ledger, i)
        &&& left.signing_digest(ledger, i) == right.signing_digest(ledger, i)
    } by {
        assert(left.vin[i] == (TxInputView { signature: left.vin[i].signature, ..right.vin[i] }));
    }
}

/// Every input that spends a picked output carries the spender's key.
pub proof fn lemma_selected_keys(selected: Seq<(Seq<u8>, Seq<usize>)>, pub_key: Seq<u8>)
    ensures
        forall|i: int|
            0 <= i < selected_inputs(selected, pub_key).len() ==> (#[trigger] selected_inputs(
                selected,
                pub_key,
            )[i]).pub_key == pub_key,
    decreases selected.len(),
{
    if selected.len() > 0 {
        lemma_selected_keys(selected.drop_last(), pub_key);
        let all = selected_inputs(selected, pub_key);
        let earlier = selected_inputs(selected.drop_last(), pub_key);
        let added = entry_inputs(selected.last(), pub_key, selected.last().1.len());
        assert(all == earlier + added);
        assert forall|i: int| 0 <= i < all.len() implies (#[trigger] all[i]).pub_key
            == pub_key by {
            if i < earlier.len() {
                assert(all[i] == earlier[i]);
            } else {
                assert(all[i] == added[i - earlier.len()]);
            }
        }
    }
}

/// Trimming changes neither what an input spends nor what is signed for it.
pub proof fn lemma_trimmed_signing(transaction: TransactionView)
    ensures
        forall|j: int, key_hash: Seq<u8>|
            0 <= j < transaction.vin.len() ==> #[trigger] transaction.trimmed().signing_input(
                j,
                key_hash,
            ) == transaction.signing_input(j, key_hash),
        forall|ledger: LedgerView, j: int|
            0 <= j < transaction.vin.len() ==> #[trigger] transaction.trimmed().spent_key_hash(
                ledger,
                j,
            ) == transaction.spent_key_hash(ledger, j),
{
    assert(transaction.trimmed().trimmed().vin =~= transaction.trimmed().vin);
}

} // verus!
