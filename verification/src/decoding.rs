//! Reading records back from their encoding: what a prefix of the bytes encodes, and what
//! is left behind it.

use vstd::prelude::*;

use crate::encoding::{
    copy_bytes, encode_bytes, encode_i32, encode_i64, encode_u64, le_bytes, unsigned32, unsigned64,
};
use vstd::utf8::{
    decode_utf8, decode_utf8_encode_utf8, encode_utf8, encode_utf8_decode_utf8,
    encode_utf8_valid_utf8, valid_utf8,
};

use crate::blocks::{encode_transactions, Block, BlockView};
use crate::helpers::string_from_utf8;
use crate::transaction::{
    encode_inputs, encode_outputs, inputs_view, outputs_view, transactions_view, Transaction,
    TransactionView, TxInput, TxInputView, TxOutput, TxOutputView,
};

verus! {

/// The number that a byte string denotes when read little-endian.
pub open spec fn le_value(bytes: Seq<u8>) -> nat
    decreases bytes.len(),
{
    if bytes.len() == 0 {
        0
    } else {
        bytes[0] as nat + 256 * le_value(bytes.drop_first())
    }
}

/// The number of values that `width` bytes can hold.
pub open spec fn radix(width: nat) -> nat
    decreases width,
{
    if width == 0 {
        1
    } else {
        256 * radix((width - 1) as nat)
    }
}

/// The signed number with the same 64 bits as `bits`.
pub open spec fn signed64(bits: u64) -> i64 {
    if bits < 0x8000_0000_0000_0000 {
        bits as i64
    } else {
        (bits - 0x1_0000_0000_0000_0000) as i64
    }
}

/// The signed number with the same 32 bits as `bits`.
pub open spec fn signed32(bits: u64) -> i32 {
    if bits < 0x8000_0000 {
        bits as i32
    } else {
        (bits - 0x1_0000_0000) as i32
    }
}

/// An unsigned 64-bit number at the start of the bytes.
#[verifier::opaque]
pub open spec fn parse_u64(bytes: Seq<u8>) -> Option<(u64, Seq<u8>)> {
    if bytes.len() >= 8 {
        Some((le_value(bytes.take(8)) as u64, bytes.skip(8)))
    } else {
        None
    }
}

/// A signed 64-bit number at the start of the bytes.
#[verifier::opaque]
pub open spec fn parse_i64(bytes: Seq<u8>) -> Option<(i64, Seq<u8>)> {
    match parse_u64(bytes) {
        Some((bits, rest)) => Some((signed64(bits), rest)),
        None => None,
    }
}

/// A signed 32-bit number at the start of the bytes.
#[verifier::opaque]
pub open spec fn parse_i32(bytes: Seq<u8>) -> Option<(i32, Seq<u8>)> {
    if bytes.len() >= 4 {
        Some((signed32(le_value(bytes.take(4)) as u64), bytes.skip(4)))
    } else {
        None
    }
}

/// A length at the start of the bytes: a 64-bit number that fits the machine's word.
#[verifier::opaque]
pub open spec fn parse_len(bytes: Seq<u8>) -> Option<(usize, Seq<u8>)> {
    match parse_u64(bytes) {
        Some((len, rest)) => if len <= usize::MAX {
            Some((len as usize, rest))
        } else {
            None
        },
        None => None,
    }
}

/// A byte string at the start of the bytes: its length, then as many bytes.
#[verifier::opaque]
pub open spec fn parse_bytes(bytes: Seq<u8>) -> Option<(Seq<u8>, Seq<u8>)> {
    match parse_len(bytes) {
        Some((len, rest)) => if len <= rest.len() {
            Some((rest.take(len as int), rest.skip(len as int)))
        } else {
            None
        },
        None => None,
    }
}

pub proof fn lemma_radix_values()
    ensures
        radix(4) == 0x1_0000_0000,
        radix(8) == 0x1_0000_0000_0000_0000,
{
    reveal_with_fuel(radix, 9);
}

/// The bytes of a number that fits the width denote that number.
pub proof fn lemma_le_value_of_bytes(value: nat, width: nat)
    requires
        value < radix(width),
    ensures
        le_value(le_bytes(value, width)) == value,
        le_bytes(value, width).len() == width,
    decreases width,
{
    if width > 0 {
        let rest = le_bytes(value / 256, (width - 1) as nat);
        lemma_le_value_of_bytes(value / 256, (width - 1) as nat);
        let bytes = le_bytes(value, width);
        assert(bytes == seq![(value % 256) as u8] + rest);
        assert(bytes[0] == (value % 256) as u8);
        assert(bytes.drop_first() =~= rest);
    }
}

/// The number that bytes denote fits their width, and its bytes are those bytes.
pub proof fn lemma_le_bytes_of_value(bytes: Seq<u8>)
    ensures
        le_value(bytes) < radix(bytes.len()),
        le_bytes(le_value(bytes), bytes.len()) == bytes,
    decreases bytes.len(),
{
    if bytes.len() > 0 {
        let rest = bytes.drop_first();
        lemma_le_bytes_of_value(rest);
        let low = bytes[0] as nat;
        let high = le_value(rest);
        assert((low + 256 * high) % 256 == low);
        assert((low + 256 * high) / 256 == high);
        assert(le_bytes(le_value(bytes), bytes.len()) =~= bytes);
    } else {
        assert(le_bytes(0, 0) =~= bytes);
    }
}

/// The two's complement of a signed number and back.
pub proof fn lemma_signed_unsigned(value64: i64, value32: i32, bits: u64)
    ensures
        unsigned64(value64) < 0x1_0000_0000_0000_0000,
        signed64(unsigned64(value64) as u64) == value64,
        unsigned64(signed64(bits)) == bits,
        unsigned32(value32) < 0x1_0000_0000,
        signed32(unsigned32(value32) as u64) == value32,
        bits < 0x1_0000_0000 ==> unsigned32(signed32(bits)) == bits,
{
}

/// Behind an encoded number, the number is read back.
pub proof fn lemma_parse_u64_encoding(value: u64, rest: Seq<u8>)
    ensures
        parse_u64(encode_u64(value) + rest) == Some((value, rest)),
        encode_u64(value).len() == 8,
{
    reveal(parse_u64);
    lemma_radix_values();
    lemma_le_value_of_bytes(value as nat, 8);
    let bytes = encode_u64(value) + rest;
    assert(bytes.take(8) =~= encode_u64(value));
    assert(bytes.skip(8) =~= rest);
}

/// What is read as a number is the encoding of that number, before what is left.
pub proof fn lemma_parse_u64_sound(bytes: Seq<u8>)
    ensures
        parse_u64(bytes) matches Some((value, rest)) ==> bytes == encode_u64(value) + rest,
{
    reveal(parse_u64);
    if bytes.len() >= 8 {
        lemma_radix_values();
        lemma_le_bytes_of_value(bytes.take(8));
        assert(bytes =~= bytes.take(8) + bytes.skip(8));
    }
}

pub proof fn lemma_parse_i64_encoding(value: i64, rest: Seq<u8>)
    ensures
        parse_i64(encode_i64(value) + rest) == Some((value, rest)),
        encode_i64(value).len() == 8,
{
    reveal(parse_i64);
    lemma_signed_unsigned(value, 0, 0);
    lemma_parse_u64_encoding(unsigned64(value) as u64, rest);
}

pub proof fn lemma_parse_i64_sound(bytes: Seq<u8>)
    ensures
        parse_i64(bytes) matches Some((value, rest)) ==> bytes == encode_i64(value) + rest,
{
    reveal(parse_i64);
    reveal(parse_u64);
    lemma_parse_u64_sound(bytes);
    if bytes.len() >= 8 {
        let parsed = parse_u64(bytes)->Some_0;
        lemma_signed_unsigned(0, 0, parsed.0);
    }
}

pub proof fn lemma_parse_i32_encoding(value: i32, rest: Seq<u8>)
    ensures
        parse_i32(encode_i32(value) + rest) == Some((value, rest)),
        encode_i32(value).len() == 4,
{
    reveal(parse_i32);
    lemma_radix_values();
    lemma_signed_unsigned(0, value, 0);
    lemma_le_value_of_bytes(unsigned32(value), 4);
    let bytes = encode_i32(value) + rest;
    assert(bytes.take(4) =~= encode_i32(value));
    assert(bytes.skip(4) =~= rest);
}

pub proof fn lemma_parse_i32_sound(bytes: Seq<u8>)
    ensures
        parse_i32(bytes) matches Some((value, rest)) ==> bytes == encode_i32(value) + rest,
{
    reveal(parse_i32);
    if bytes.len() >= 4 {
        lemma_radix_values();
        lemma_le_bytes_of_value(bytes.take(4));
        lemma_signed_unsigned(0, 0, le_value(bytes.take(4)) as u64);
        assert(bytes =~= bytes.take(4) + bytes.skip(4));
    }
}

pub proof fn lemma_parse_len_encoding(len: usize, rest: Seq<u8>)
    ensures
        parse_len(encode_u64(len as u64) + rest) == Some((len, rest)),
{
    reveal(parse_len);
    lemma_parse_u64_encoding(len as u64, rest);
}

pub proof fn lemma_parse_len_sound(bytes: Seq<u8>)
    ensures
        parse_len(bytes) matches Some((len, rest)) ==> bytes == encode_u64(len as u64) + rest,
{
    reveal(parse_len);
    lemma_parse_u64_sound(bytes);
}

/// Behind an encoded byte string that the machine can hold, the string is read back.
pub proof fn lemma_parse_bytes_encoding(value: Seq<u8>, rest: Seq<u8>)
    requires
        value.len() <= usize::MAX,
    ensures
        parse_bytes(encode_bytes(value) + rest) == Some((value, rest)),
{
    reveal(parse_bytes);
    lemma_parse_len_encoding(value.len() as usize, value + rest);
    assert(encode_bytes(value) + rest =~= encode_u64(value.len() as u64) + (value + rest));
    assert((value + rest).take(value.len() as int) =~= value);
    assert((value + rest).skip(value.len() as int) =~= rest);
}

/// What is read as a byte string is the encoding of that string, before what is left.
pub proof fn lemma_parse_bytes_sound(bytes: Seq<u8>)
    ensures
        parse_bytes(bytes) matches Some((value, rest)) ==> bytes == encode_bytes(value) + rest
            && value.len() <= usize::MAX,
{
    reveal(parse_bytes);
    lemma_parse_len_sound(bytes);
    match parse_bytes(bytes) {
        Some((value, rest)) => {
            let parsed = parse_len(bytes)->Some_0;
            let tail = parsed.1;
            assert(tail =~= value + rest);
            assert(bytes =~= encode_bytes(value) + rest);
        },
        None => {},
    }
}

/// The number that `width` bytes from `pos` on denote, little-endian.
fn read_le(bytes: &[u8], pos: usize, width: usize) -> (value: u64)
    requires
        pos + width <= bytes@.len(),
        width <= 8,
    ensures
        value == le_value(bytes@.subrange(pos as int, pos + width)),
        value < radix(width as nat),
    decreases width,
{
    proof {
        lemma_radix_bound(width as nat);
    }
    if width == 0 {
        0
    } else {
        assert(pos < bytes.len());
        let rest = read_le(bytes, pos + 1, width - 1);
        proof {
            let part = bytes@.subrange(pos as int, pos + width);
            assert(part.drop_first() =~= bytes@.subrange(pos + 1, pos + width));
            assert(part[0] == bytes@[pos as int]);
        }
        bytes[pos] as u64 + 256 * rest
    }
}

proof fn lemma_radix_bound(width: nat)
    requires
        width <= 8,
    ensures
        radix(width) <= 0x1_0000_0000_0000_0000,
        width > 0 ==> radix(width) == 256 * radix((width - 1) as nat),
{
    reveal_with_fuel(radix, 9);
}

/// The 64 bits from `pos` on as a signed number.
pub fn to_signed64(bits: u64) -> (value: i64)
    ensures
        value == signed64(bits),
{
    if bits < 0x8000_0000_0000_0000 {
        bits as i64
    } else {
        ((bits - 0x8000_0000_0000_0000) as i64) + i64::MIN
    }
}

/// The low 32 bits as a signed number.
pub fn to_signed32(bits: u64) -> (value: i32)
    requires
        bits < 0x1_0000_0000,
    ensures
        value == signed32(bits),
{
    if bits < 0x8000_0000 {
        bits as i32
    } else {
        ((bits - 0x8000_0000) as i32) + i32::MIN
    }
}

/// Reads an unsigned 64-bit number at `pos`; gives the number and the place behind it.
pub fn read_u64(bytes: &[u8], pos: usize) -> (read: Option<(u64, usize)>)
    requires
        pos <= bytes@.len(),
    ensures
        match read {
            Some((value, next)) => pos <= next <= bytes@.len() && parse_u64(
                bytes@.skip(pos as int),
            ) == Some((value, bytes@.skip(next as int))),
            None => parse_u64(bytes@.skip(pos as int)) is None,
        },
{
    proof {
        reveal(parse_u64);
    }
    if bytes.len() - pos < 8 {
        return None;
    }
    let value = read_le(bytes, pos, 8);
    proof {
        let tail = bytes@.skip(pos as int);
        assert(tail.take(8) =~= bytes@.subrange(pos as int, pos + 8));
        assert(tail.skip(8) =~= bytes@.skip(pos + 8));
    }
    Some((value, pos + 8))
}

/// Reads a signed 64-bit number at `pos`.
pub fn read_i64(bytes: &[u8], pos: usize) -> (read: Option<(i64, usize)>)
    requires
        pos <= bytes@.len(),
    ensures
        match read {
            Some((value, next)) => pos <= next <= bytes@.len() && parse_i64(
                bytes@.skip(pos as int),
            ) == Some((value, bytes@.skip(next as int))),
            None => parse_i64(bytes@.skip(pos as int)) is None,
        },
{
    proof {
        reveal(parse_i64);
    }
    match read_u64(bytes, pos) {
        Some((bits, next)) => Some((to_signed64(bits), next)),
        None => None,
    }
}

/// Reads a signed 32-bit number at `pos`.
pub fn read_i32(bytes: &[u8], pos: usize) -> (read: Option<(i32, usize)>)
    requires
        pos <= bytes@.len(),
    ensures
        match read {
            Some((value, next)) => pos <= next <= bytes@.len() && parse_i32(
                bytes@.skip(pos as int),
            ) == Some((value, bytes@.skip(next as int))),
            None => parse_i32(bytes@.skip(pos as int)) is None,
        },
{
    proof {
        reveal(parse_i32);
    }
    if bytes.len() - pos < 4 {
        return None;
    }
    let bits = read_le(bytes, pos, 4);
    proof {
        lemma_radix_values();
        let tail = bytes@.skip(pos as int);
        assert(tail.take(4) =~= bytes@.subrange(pos as int, pos + 4));
        assert(tail.skip(4) =~= bytes@.skip(pos + 4));
    }
    Some((to_signed32(bits), pos + 4))
}

/// Reads a length at `pos`.
pub fn read_len(bytes: &[u8], pos: usize) -> (read: Option<(usize, usize)>)
    requires
        pos <= bytes@.len(),
    ensures
        match read {
            Some((len, next)) => pos <= next <= bytes@.len() && parse_len(
                bytes@.skip(pos as int),
            ) == Some((len, bytes@.skip(next as int))),
            None => parse_len(bytes@.skip(pos as int)) is None,
        },
{
    proof {
        reveal(parse_len);
    }
    match read_u64(bytes, pos) {
        Some((len, next)) => {
            if len <= usize::MAX as u64 {
                Some((len as usize, next))
            } else {
                None
            }
        },
        None => None,
    }
}

/// Reads a byte string at `pos`.
pub fn read_bytes(bytes: &[u8], pos: usize) -> (read: Option<(Vec<u8>, usize)>)
    requires
        pos <= bytes@.len(),
    ensures
        match read {
            Some((value, next)) => pos <= next <= bytes@.len() && parse_bytes(
                bytes@.skip(pos as int),
            ) == Some((value@, bytes@.skip(next as int))),
            None => parse_bytes(bytes@.skip(pos as int)) is None,
        },
{
    proof {
        reveal(parse_bytes);
    }
    match read_len(bytes, pos) {
        Some((len, start)) => {
            if len <= bytes.len() - start {
                let value = copy_bytes(vstd::slice::slice_subrange(bytes, start, start + len));
                proof {
                    let tail = bytes@.skip(start as int);
                    assert(tail.take(len as int) =~= bytes@.subrange(start as int, start + len));
                    assert(tail.skip(len as int) =~= bytes@.skip(start + len));
                }
                Some((value, start + len))
            } else {
                None
            }
        },
        None => None,
    }
}

/// Whether an input can be kept: its byte strings are no longer than the machine can hold.
pub open spec fn input_storable(input: TxInputView) -> bool {
    &&& input.txid.len() <= usize::MAX
    &&& input.signature.len() <= usize::MAX
    &&& input.pub_key.len() <= usize::MAX
}

/// Whether an output can be kept: its amount is not negative, and its key hash is no longer
/// than the machine can hold.
pub open spec fn output_storable(output: TxOutputView) -> bool {
    output.value >= 0 && output.pub_key_hash.len() <= usize::MAX
}

/// Whether a transaction can be kept: its id, its inputs and its outputs can.
pub open spec fn transaction_storable(transaction: TransactionView) -> bool {
    &&& transaction.id.len() <= usize::MAX
    &&& transaction.vin.len() <= usize::MAX
    &&& transaction.vout.len() <= usize::MAX
    &&& forall|i: int| 0 <= i < transaction.vin.len() ==> input_storable(#[trigger] transaction.vin[i])
    &&& forall|i: int|
        0 <= i < transaction.vout.len() ==> output_storable(#[trigger] transaction.vout[i])
}

/// An input at the start of the bytes.
#[verifier::opaque]
pub open spec fn parse_input(bytes: Seq<u8>) -> Option<(TxInputView, Seq<u8>)> {
    match parse_bytes(bytes) {
        Some((txid, behind_txid)) => match parse_len(behind_txid) {
            Some((vout, behind_vout)) => match parse_bytes(behind_vout) {
                Some((signature, behind_signature)) => match parse_bytes(behind_signature) {
                    Some((pub_key, rest)) => Some(
                        (TxInputView { txid, vout, signature, pub_key }, rest),
                    ),
                    None => None,
                },
                None => None,
            },
            None => None,
        },
        None => None,
    }
}

/// An output at the start of the bytes; one with a negative amount is none.
#[verifier::opaque]
pub open spec fn parse_output(bytes: Seq<u8>) -> Option<(TxOutputView, Seq<u8>)> {
    match parse_i32(bytes) {
        Some((value, behind_value)) => match parse_bytes(behind_value) {
            Some((pub_key_hash, rest)) => if value >= 0 {
                Some((TxOutputView { value, pub_key_hash }, rest))
            } else {
                None
            },
            None => None,
        },
        None => None,
    }
}

/// `count` inputs at the start of the bytes.
pub open spec fn parse_inputs(bytes: Seq<u8>, count: nat) -> Option<(Seq<TxInputView>, Seq<u8>)>
    decreases count,
{
    if count == 0 {
        Some((Seq::empty(), bytes))
    } else {
        match parse_input(bytes) {
            Some((first, behind_first)) => match parse_inputs(behind_first, (count - 1) as nat) {
                Some((others, rest)) => Some((seq![first] + others, rest)),
                None => None,
            },
            None => None,
        }
    }
}

/// `count` outputs at the start of the bytes.
pub open spec fn parse_outputs(bytes: Seq<u8>, count: nat) -> Option<(Seq<TxOutputView>, Seq<u8>)>
    decreases count,
{
    if count == 0 {
        Some((Seq::empty(), bytes))
    } else {
        match parse_output(bytes) {
            Some((first, behind_first)) => match parse_outputs(behind_first, (count - 1) as nat) {
                Some((others, rest)) => Some((seq![first] + others, rest)),
                None => None,
            },
            None => None,
        }
    }
}

/// A transaction at the start of the bytes: the id, the inputs behind their number, the
/// outputs behind theirs.
pub open spec fn parse_transaction(bytes: Seq<u8>) -> Option<(TransactionView, Seq<u8>)> {
    match parse_bytes(bytes) {
        Some((id, behind_id)) => match parse_len(behind_id) {
            Some((inputs, behind_inputs)) => match parse_inputs(behind_inputs, inputs as nat) {
                Some((vin, behind_vin)) => match parse_len(behind_vin) {
                    Some((outputs, behind_outputs)) => match parse_outputs(
                        behind_outputs,
                        outputs as nat,
                    ) {
                        Some((vout, rest)) => Some((TransactionView { id, vin, vout }, rest)),
                        None => None,
                    },
                    None => None,
                },
                None => None,
            },
            None => None,
        },
        None => None,
    }
}

#[verifier::rlimit(50)]
pub proof fn lemma_parse_input_encoding(input: TxInputView, rest: Seq<u8>)
    requires
        input_storable(input),
    ensures
        parse_input(input.encoding() + rest) == Some((input, rest)),
{
    reveal(parse_input);
    let behind_txid = encode_u64(input.vout as u64) + encode_bytes(input.signature) + encode_bytes(
        input.pub_key,
    ) + rest;
    let behind_vout = encode_bytes(input.signature) + encode_bytes(input.pub_key) + rest;
    let behind_signature = encode_bytes(input.pub_key) + rest;
    let bytes = input.encoding() + rest;
    assert(bytes =~= encode_bytes(input.txid) + behind_txid);
    assert(behind_txid =~= encode_u64(input.vout as u64) + behind_vout);
    assert(behind_vout =~= encode_bytes(input.signature) + behind_signature);
    lemma_parse_bytes_encoding(input.txid, behind_txid);
    assert(parse_bytes(bytes) == Some((input.txid, behind_txid)));
    lemma_parse_len_encoding(input.vout, behind_vout);
    assert(parse_len(behind_txid) == Some((input.vout, behind_vout)));
    lemma_parse_bytes_encoding(input.signature, behind_signature);
    assert(parse_bytes(behind_vout) == Some((input.signature, behind_signature)));
    lemma_parse_bytes_encoding(input.pub_key, rest);
    assert(parse_bytes(behind_signature) == Some((input.pub_key, rest)));
}

#[verifier::rlimit(50)]
pub proof fn lemma_parse_input_sound(bytes: Seq<u8>)
    ensures
        parse_input(bytes) matches Some((input, rest)) ==> bytes == input.encoding() + rest
            && input_storable(input),
{
    reveal(parse_input);
    lemma_parse_bytes_sound(bytes);
    if let Some((txid, behind_txid)) = parse_bytes(bytes) {
        lemma_parse_len_sound(behind_txid);
        if let Some((vout, behind_vout)) = parse_len(behind_txid) {
            lemma_parse_bytes_sound(behind_vout);
            if let Some((signature, behind_signature)) = parse_bytes(behind_vout) {
                lemma_parse_bytes_sound(behind_signature);
                if let Some((pub_key, rest)) = parse_bytes(behind_signature) {
                    let input = TxInputView { txid, vout, signature, pub_key };
                    assert(bytes =~= input.encoding() + rest);
                }
            }
        }
    }
}

pub proof fn lemma_parse_output_encoding(output: TxOutputView, rest: Seq<u8>)
    requires
        output_storable(output),
    ensures
        parse_output(output.encoding() + rest) == Some((output, rest)),
{
    reveal(parse_output);
    let behind_value = encode_bytes(output.pub_key_hash) + rest;
    assert(output.encoding() + rest =~= encode_i32(output.value) + behind_value);
    lemma_parse_i32_encoding(output.value, behind_value);
    lemma_parse_bytes_encoding(output.pub_key_hash, rest);
}

pub proof fn lemma_parse_output_sound(bytes: Seq<u8>)
    ensures
        parse_output(bytes) matches Some((output, rest)) ==> bytes == output.encoding() + rest
            && output_storable(output),
{
    reveal(parse_output);
    lemma_parse_i32_sound(bytes);
    if let Some((value, behind_value)) = parse_i32(bytes) {
        lemma_parse_bytes_sound(behind_value);
        if let Some((pub_key_hash, rest)) = parse_bytes(behind_value) {
            let output = TxOutputView { value, pub_key_hash };
            assert(bytes =~= output.encoding() + rest);
        }
    }
}

/// The encoding of a list of inputs starts with that of the first.
pub proof fn lemma_encode_inputs_first(first: TxInputView, others: Seq<TxInputView>)
    ensures
        encode_inputs(seq![first] + others) == first.encoding() + encode_inputs(others),
    decreases others.len(),
{
    let all = seq![first] + others;
    if others.len() == 0 {
        assert(all.drop_last() =~= Seq::<TxInputView>::empty());
        assert(encode_inputs(all.drop_last()) =~= Seq::<u8>::empty());
        assert(all.last() == first);
        assert(encode_inputs(all) =~= first.encoding() + encode_inputs(others));
    } else {
        lemma_encode_inputs_first(first, others.drop_last());
        assert(all.drop_last() =~= seq![first] + others.drop_last());
        assert(all.last() == others.last());
        assert(encode_inputs(all) =~= first.encoding() + encode_inputs(others));
    }
}

/// The encoding of a list of outputs starts with that of the first.
pub proof fn lemma_encode_outputs_first(first: TxOutputView, others: Seq<TxOutputView>)
    ensures
        encode_outputs(seq![first] + others) == first.encoding() + encode_outputs(others),
    decreases others.len(),
{
    let all = seq![first] + others;
    if others.len() == 0 {
        assert(all.drop_last() =~= Seq::<TxOutputView>::empty());
        assert(encode_outputs(all.drop_last()) =~= Seq::<u8>::empty());
        assert(all.last() == first);
        assert(encode_outputs(all) =~= first.encoding() + encode_outputs(others));
    } else {
        lemma_encode_outputs_first(first, others.drop_last());
        assert(all.drop_last() =~= seq![first] + others.drop_last());
        assert(all.last() == others.last());
        assert(encode_outputs(all) =~= first.encoding() + encode_outputs(others));
    }
}

pub proof fn lemma_parse_inputs_encoding(inputs: Seq<TxInputView>, rest: Seq<u8>)
    requires
        forall|i: int| 0 <= i < inputs.len() ==> input_storable(#[trigger] inputs[i]),
    ensures
        parse_inputs(encode_inputs(inputs) + rest, inputs.len()) == Some((inputs, rest)),
    decreases inputs.len(),
{
    if inputs.len() == 0 {
        assert(encode_inputs(inputs) + rest =~= rest);
        assert(inputs =~= Seq::empty());
    } else {
        let first = inputs[0];
        let others = inputs.drop_first();
        assert(inputs =~= seq![first] + others);
        lemma_encode_inputs_first(first, others);
        assert forall|i: int| 0 <= i < others.len() implies input_storable(
            #[trigger] others[i],
        ) by {
            assert(others[i] == inputs[i + 1]);
        }
        lemma_parse_inputs_encoding(others, rest);
        let behind_first = encode_inputs(others) + rest;
        assert(encode_inputs(inputs) + rest =~= first.encoding() + behind_first);
        lemma_parse_input_encoding(first, behind_first);
    }
}

#[verifier::rlimit(50)]
pub proof fn lemma_parse_inputs_sound(bytes: Seq<u8>, count: nat)
    ensures
        parse_inputs(bytes, count) matches Some((inputs, rest)) ==> {
            &&& inputs.len() == count
            &&& bytes == encode_inputs(inputs) + rest
            &&& forall|i: int| 0 <= i < inputs.len() ==> input_storable(#[trigger] inputs[i])
        },
    decreases count,
{
    if count == 0 {
        assert(encode_inputs(Seq::empty()) + bytes =~= bytes);
    } else if parse_inputs(bytes, count) is Some {
        let head = parse_input(bytes)->Some_0;
        let first = head.0;
        let behind_first = head.1;
        lemma_parse_input_sound(bytes);
        assert(bytes == first.encoding() + behind_first);
        let tail = parse_inputs(behind_first, (count - 1) as nat)->Some_0;
        let others = tail.0;
        let rest = tail.1;
        lemma_parse_inputs_sound(behind_first, (count - 1) as nat);
        assert(behind_first == encode_inputs(others) + rest);
        let inputs = seq![first] + others;
        assert(parse_inputs(bytes, count) == Some((inputs, rest)));
        lemma_encode_inputs_first(first, others);
        assert(bytes =~= encode_inputs(inputs) + rest);
        assert forall|i: int| 0 <= i < inputs.len() implies input_storable(
            #[trigger] inputs[i],
        ) by {
            if i > 0 {
                assert(inputs[i] == others[i - 1]);
            }
        }
    }
}

pub proof fn lemma_parse_outputs_encoding(outputs: Seq<TxOutputView>, rest: Seq<u8>)
    requires
        forall|i: int| 0 <= i < outputs.len() ==> output_storable(#[trigger] outputs[i]),
    ensures
        parse_outputs(encode_outputs(outputs) + rest, outputs.len()) == Some((outputs, rest)),
    decreases outputs.len(),
{
    if outputs.len() == 0 {
        assert(encode_outputs(outputs) + rest =~= rest);
        assert(outputs =~= Seq::empty());
    } else {
        let first = outputs[0];
        let others = outputs.drop_first();
        assert(outputs =~= seq![first] + others);
        lemma_encode_outputs_first(first, others);
        assert forall|i: int| 0 <= i < others.len() implies output_storable(
            #[trigger] others[i],
        ) by {
            assert(others[i] == outputs[i + 1]);
        }
        lemma_parse_outputs_encoding(others, rest);
        let behind_first = encode_outputs(others) + rest;
        assert(encode_outputs(outputs) + rest =~= first.encoding() + behind_first);
        lemma_parse_output_encoding(first, behind_first);
    }
}

#[verifier::rlimit(50)]
pub proof fn lemma_parse_outputs_sound(bytes: Seq<u8>, count: nat)
    ensures
        parse_outputs(bytes, count) matches Some((outputs, rest)) ==> {
            &&& outputs.len() == count
            &&& bytes == encode_outputs(outputs) + rest
            &&& forall|i: int| 0 <= i < outputs.len() ==> output_storable(#[trigger] outputs[i])
        },
    decreases count,
{
    if count == 0 {
        assert(encode_outputs(Seq::empty()) + bytes =~= bytes);
    } else {
        lemma_parse_output_sound(bytes);
        if let Some((first, behind_first)) = parse_output(bytes) {
            lemma_parse_outputs_sound(behind_first, (count - 1) as nat);
            if let Some((others, rest)) = parse_outputs(behind_first, (count - 1) as nat) {
                let outputs = seq![first] + others;
                lemma_encode_outputs_first(first, others);
                assert(bytes =~= encode_outputs(outputs) + rest);
                assert forall|i: int| 0 <= i < outputs.len() implies output_storable(
                    #[trigger] outputs[i],
                ) by {
                    if i > 0 {
                        assert(outputs[i] == others[i - 1]);
                    }
                }
            }
        }
    }
}

/// Behind the encoding of a transaction that can be kept, the transaction is read back.
#[verifier::rlimit(50)]
pub proof fn lemma_parse_transaction_encoding(transaction: TransactionView, rest: Seq<u8>)
    requires
        transaction_storable(transaction),
    ensures
        parse_transaction(transaction.encoding() + rest) == Some((transaction, rest)),
{
    let behind_outputs = encode_outputs(transaction.vout) + rest;
    let behind_vin = encode_u64(transaction.vout.len() as u64) + behind_outputs;
    let behind_inputs = encode_inputs(transaction.vin) + behind_vin;
    let behind_id = encode_u64(transaction.vin.len() as u64) + behind_inputs;
    let bytes = transaction.encoding() + rest;
    assert(bytes =~= encode_bytes(transaction.id) + behind_id);
    lemma_parse_bytes_encoding(transaction.id, behind_id);
    assert(parse_bytes(bytes) == Some((transaction.id, behind_id)));
    lemma_parse_len_encoding(transaction.vin.len() as usize, behind_inputs);
    assert(parse_len(behind_id) == Some((transaction.vin.len() as usize, behind_inputs)));
    lemma_parse_inputs_encoding(transaction.vin, behind_vin);
    assert(parse_inputs(behind_inputs, transaction.vin.len()) == Some(
        (transaction.vin, behind_vin),
    ));
    lemma_parse_len_encoding(transaction.vout.len() as usize, behind_outputs);
    assert(parse_len(behind_vin) == Some((transaction.vout.len() as usize, behind_outputs)));
    lemma_parse_outputs_encoding(transaction.vout, rest);
    assert(parse_outputs(behind_outputs, transaction.vout.len()) == Some(
        (transaction.vout, rest),
    ));
}

/// What is read as a transaction is the encoding of that transaction, before what is
/// left; and the transaction can be kept.
#[verifier::rlimit(50)]
pub proof fn lemma_parse_transaction_sound(bytes: Seq<u8>)
    ensures
        parse_transaction(bytes) matches Some((transaction, rest)) ==> bytes
            == transaction.encoding() + rest && transaction_storable(transaction),
{
    if parse_transaction(bytes) is Some {
        let head = parse_bytes(bytes)->Some_0;
        let id = head.0;
        let behind_id = head.1;
        lemma_parse_bytes_sound(bytes);
        let inputs_head = parse_len(behind_id)->Some_0;
        let inputs = inputs_head.0;
        let behind_inputs = inputs_head.1;
        lemma_parse_len_sound(behind_id);
        let vin_head = parse_inputs(behind_inputs, inputs as nat)->Some_0;
        let vin = vin_head.0;
        let behind_vin = vin_head.1;
        lemma_parse_inputs_sound(behind_inputs, inputs as nat);
        let outputs_head = parse_len(behind_vin)->Some_0;
        let outputs = outputs_head.0;
        let behind_outputs = outputs_head.1;
        lemma_parse_len_sound(behind_vin);
        let vout_head = parse_outputs(behind_outputs, outputs as nat)->Some_0;
        let vout = vout_head.0;
        let rest = vout_head.1;
        lemma_parse_outputs_sound(behind_outputs, outputs as nat);
        let transaction = TransactionView { id, vin, vout };
        assert(parse_transaction(bytes) == Some((transaction, rest)));
        assert(bytes =~= transaction.encoding() + rest);
    }
}

/// Reads an input at `pos`.
#[verifier::rlimit(50)]
pub fn read_input(bytes: &[u8], pos: usize) -> (read: Option<(TxInput, usize)>)
    requires
        pos <= bytes@.len(),
    ensures
        match read {
            Some((input, next)) => pos <= next <= bytes@.len() && parse_input(
                bytes@.skip(pos as int),
            ) == Some((input@, bytes@.skip(next as int))),
            None => parse_input(bytes@.skip(pos as int)) is None,
        },
{
    proof {
        reveal(parse_input);
    }
    let (txid, pos) = match read_bytes(bytes, pos) {
        Some(read) => read,
        None => {
            return None;
        },
    };
    let (vout, pos) = match read_len(bytes, pos) {
        Some(read) => read,
        None => {
            return None;
        },
    };
    let (signature, pos) = match read_bytes(bytes, pos) {
        Some(read) => read,
        None => {
            return None;
        },
    };
    let (pub_key, pos) = match read_bytes(bytes, pos) {
        Some(read) => read,
        None => {
            return None;
        },
    };
    Some((TxInput::from_parts(txid, vout, signature, pub_key), pos))
}

/// Reads an output at `pos`.
pub fn read_output(bytes: &[u8], pos: usize) -> (read: Option<(TxOutput, usize)>)
    requires
        pos <= bytes@.len(),
    ensures
        match read {
            Some((output, next)) => pos <= next <= bytes@.len() && parse_output(
                bytes@.skip(pos as int),
            ) == Some((output@, bytes@.skip(next as int))),
            None => parse_output(bytes@.skip(pos as int)) is None,
        },
{
    proof {
        reveal(parse_output);
    }
    let (value, pos) = match read_i32(bytes, pos) {
        Some(read) => read,
        None => {
            return None;
        },
    };
    let (pub_key_hash, pos) = match read_bytes(bytes, pos) {
        Some(read) => read,
        None => {
            return None;
        },
    };
    match TxOutput::from_parts(value, pub_key_hash) {
        Some(output) => Some((output, pos)),
        None => None,
    }
}

/// Reads `count` inputs at `pos`.
#[verifier::rlimit(50)]
pub fn read_inputs(bytes: &[u8], pos: usize, count: usize) -> (read: Option<(Vec<TxInput>, usize)>)
    requires
        pos <= bytes@.len(),
    ensures
        match read {
            Some((inputs, next)) => pos <= next <= bytes@.len() && parse_inputs(
                bytes@.skip(pos as int),
                count as nat,
            ) == Some((inputs_view(inputs@), bytes@.skip(next as int))),
            None => parse_inputs(bytes@.skip(pos as int), count as nat) is None,
        },
{
    let mut inputs: Vec<TxInput> = Vec::new();
    let mut at: usize = pos;
    let mut i: usize = 0;
    let ghost whole = parse_inputs(bytes@.skip(pos as int), count as nat);
    proof {
        if let Some((tail, rest)) = whole {
            assert(inputs_view(inputs@) + tail =~= tail);
        }
    }
    while i < count
        invariant
            i <= count,
            pos <= at <= bytes@.len(),
            whole == parse_inputs(bytes@.skip(pos as int), count as nat),
            whole == match parse_inputs(bytes@.skip(at as int), (count - i) as nat) {
                Some((tail, rest)) => Some((inputs_view(inputs@) + tail, rest)),
                None => None,
            },
        decreases count - i,
    {
        let ghost so_far = inputs_view(inputs@);
        match read_input(bytes, at) {
            Some((input, next)) => {
                inputs.push(input);
                proof {
                    assert(inputs_view(inputs@) =~= so_far.push(input@));
                    if let Some((tail, rest)) = parse_inputs(
                        bytes@.skip(next as int),
                        (count - i - 1) as nat,
                    ) {
                        assert(so_far + (seq![input@] + tail) =~= so_far.push(input@) + tail);
                    }
                }
                at = next;
            },
            None => {
                return None;
            },
        }
        i = i + 1;
    }
    proof {
        assert(inputs_view(inputs@) + Seq::<TxInputView>::empty() =~= inputs_view(inputs@));
    }
    Some((inputs, at))
}

/// Reads `count` outputs at `pos`.
#[verifier::rlimit(50)]
pub fn read_outputs(bytes: &[u8], pos: usize, count: usize) -> (read: Option<
    (Vec<TxOutput>, usize),
>)
    requires
        pos <= bytes@.len(),
    ensures
        match read {
            Some((outputs, next)) => pos <= next <= bytes@.len() && parse_outputs(
                bytes@.skip(pos as int),
                count as nat,
            ) == Some((outputs_view(outputs@), bytes@.skip(next as int))),
            None => parse_outputs(bytes@.skip(pos as int), count as nat) is None,
        },
{
    let mut outputs: Vec<TxOutput> = Vec::new();
    let mut at: usize = pos;
    let mut i: usize = 0;
    let ghost whole = parse_outputs(bytes@.skip(pos as int), count as nat);
    proof {
        if let Some((tail, rest)) = whole {
            assert(outputs_view(outputs@) + tail =~= tail);
        }
    }
    while i < count
        invariant
            i <= count,
            pos <= at <= bytes@.len(),
            whole == parse_outputs(bytes@.skip(pos as int), count as nat),
            whole == match parse_outputs(bytes@.skip(at as int), (count - i) as nat) {
                Some((tail, rest)) => Some((outputs_view(outputs@) + tail, rest)),
                None => None,
            },
        decreases count - i,
    {
        let ghost so_far = outputs_view(outputs@);
        match read_output(bytes, at) {
            Some((output, next)) => {
                outputs.push(output);
                proof {
                    assert(outputs_view(outputs@) =~= so_far.push(output@));
                    if let Some((tail, rest)) = parse_outputs(
                        bytes@.skip(next as int),
                        (count - i - 1) as nat,
                    ) {
                        assert(so_far + (seq![output@] + tail) =~= so_far.push(output@) + tail);
                    }
                }
                at = next;
            },
            None => {
                return None;
            },
        }
        i = i + 1;
    }
    proof {
        assert(outputs_view(outputs@) + Seq::<TxOutputView>::empty() =~= outputs_view(outputs@));
    }
    Some((outputs, at))
}

/// Reads a transaction at `pos`.
#[verifier::rlimit(50)]
pub fn read_transaction(bytes: &[u8], pos: usize) -> (read: Option<(Transaction, usize)>)
    requires
        pos <= bytes@.len(),
    ensures
        match read {
            Some((transaction, next)) => pos <= next <= bytes@.len() && parse_transaction(
                bytes@.skip(pos as int),
            ) == Some((transaction@, bytes@.skip(next as int))),
            None => parse_transaction(bytes@.skip(pos as int)) is None,
        },
{
    let (id, pos) = match read_bytes(bytes, pos) {
        Some(read) => read,
        None => {
            return None;
        },
    };
    let (inputs, pos) = match read_len(bytes, pos) {
        Some(read) => read,
        None => {
            return None;
        },
    };
    let (vin, pos) = match read_inputs(bytes, pos, inputs) {
        Some(read) => read,
        None => {
            return None;
        },
    };
    let (outputs, pos) = match read_len(bytes, pos) {
        Some(read) => read,
        None => {
            return None;
        },
    };
    let (vout, pos) = match read_outputs(bytes, pos, outputs) {
        Some(read) => read,
        None => {
            return None;
        },
    };
    Some((Transaction::from_parts(id, vin, vout), pos))
}

/// Whether a block can be kept: its hashes, as bytes, its transactions and their number
/// are no more than the machine can hold, and it is short enough to digest.
pub open spec fn block_storable(block: BlockView) -> bool {
    &&& encode_utf8(block.prev_hash).len() <= usize::MAX
    &&& encode_utf8(block.hash).len() <= usize::MAX
    &&& block.transactions.len() <= usize::MAX
    &&& forall|i: int|
        0 <= i < block.transactions.len() ==> transaction_storable(#[trigger] block.transactions[i])
    &&& block.hashable()
}

/// A text at the start of the bytes: a byte string that is UTF-8.
#[verifier::opaque]
pub open spec fn parse_text(bytes: Seq<u8>) -> Option<(Seq<char>, Seq<u8>)> {
    match parse_bytes(bytes) {
        Some((raw, rest)) => if valid_utf8(raw) {
            Some((decode_utf8(raw), rest))
        } else {
            None
        },
        None => None,
    }
}

/// `count` transactions at the start of the bytes.
pub open spec fn parse_transactions(bytes: Seq<u8>, count: nat) -> Option<
    (Seq<TransactionView>, Seq<u8>),
>
    decreases count,
{
    if count == 0 {
        Some((Seq::empty(), bytes))
    } else {
        match parse_transaction(bytes) {
            Some((first, behind_first)) => match parse_transactions(
                behind_first,
                (count - 1) as nat,
            ) {
                Some((others, rest)) => Some((seq![first] + others, rest)),
                None => None,
            },
            None => None,
        }
    }
}

/// The six fields of a block at the start of the bytes.
pub open spec fn parse_block_fields(bytes: Seq<u8>) -> Option<(BlockView, Seq<u8>)> {
    match parse_i64(bytes) {
        Some((timestamp, behind_timestamp)) => match parse_text(behind_timestamp) {
            Some((prev_hash, behind_prev)) => match parse_text(behind_prev) {
                Some((hash, behind_hash)) => match parse_len(behind_hash) {
                    Some((count, behind_count)) => match parse_transactions(
                        behind_count,
                        count as nat,
                    ) {
                        Some((transactions, behind_transactions)) => match parse_i64(
                            behind_transactions,
                        ) {
                            Some((nonce, behind_nonce)) => match parse_len(behind_nonce) {
                                Some((height, rest)) => Some(
                                    (
                                        BlockView {
                                            timestamp,
                                            prev_hash,
                                            hash,
                                            transactions,
                                            nonce,
                                            height,
                                        },
                                        rest,
                                    ),
                                ),
                                None => None,
                            },
                            None => None,
                        },
                        None => None,
                    },
                    None => None,
                },
                None => None,
            },
            None => None,
        },
        None => None,
    }
}

/// A block at the start of the bytes: its six fields, of a block short enough to digest.
pub open spec fn parse_block(bytes: Seq<u8>) -> Option<(BlockView, Seq<u8>)> {
    match parse_block_fields(bytes) {
        Some((block, rest)) => if block.hashable() {
            Some((block, rest))
        } else {
            None
        },
        None => None,
    }
}

pub proof fn lemma_parse_text_encoding(text: Seq<char>, rest: Seq<u8>)
    requires
        encode_utf8(text).len() <= usize::MAX,
    ensures
        parse_text(encode_bytes(encode_utf8(text)) + rest) == Some((text, rest)),
{
    reveal(parse_text);
    lemma_parse_bytes_encoding(encode_utf8(text), rest);
    encode_utf8_valid_utf8(text);
    encode_utf8_decode_utf8(text);
}

pub proof fn lemma_parse_text_sound(bytes: Seq<u8>)
    ensures
        parse_text(bytes) matches Some((text, rest)) ==> bytes == encode_bytes(encode_utf8(text))
            + rest && encode_utf8(text).len() <= usize::MAX,
{
    reveal(parse_text);
    lemma_parse_bytes_sound(bytes);
    if parse_text(bytes) is Some {
        let head = parse_bytes(bytes)->Some_0;
        decode_utf8_encode_utf8(head.0);
    }
}

/// The encoding of a list of transactions starts with that of the first.
pub proof fn lemma_encode_transactions_first(first: TransactionView, others: Seq<TransactionView>)
    ensures
        encode_transactions(seq![first] + others) == first.encoding() + encode_transactions(
            others,
        ),
    decreases others.len(),
{
    let all = seq![first] + others;
    if others.len() == 0 {
        assert(all.drop_last() =~= Seq::<TransactionView>::empty());
        assert(encode_transactions(all.drop_last()) =~= Seq::<u8>::empty());
        assert(all.last() == first);
        assert(encode_transactions(all) =~= first.encoding() + encode_transactions(others));
    } else {
        lemma_encode_transactions_first(first, others.drop_last());
        assert(all.drop_last() =~= seq![first] + others.drop_last());
        assert(all.last() == others.last());
        assert(encode_transactions(all) =~= first.encoding() + encode_transactions(others));
    }
}

pub proof fn lemma_parse_transactions_encoding(transactions: Seq<TransactionView>, rest: Seq<u8>)
    requires
        forall|i: int|
            0 <= i < transactions.len() ==> transaction_storable(#[trigger] transactions[i]),
    ensures
        parse_transactions(encode_transactions(transactions) + rest, transactions.len()) == Some(
            (transactions, rest),
        ),
    decreases transactions.len(),
{
    if transactions.len() == 0 {
        assert(encode_transactions(transactions) + rest =~= rest);
        assert(transactions =~= Seq::empty());
    } else {
        let first = transactions[0];
        let others = transactions.drop_first();
        assert(transactions =~= seq![first] + others);
        lemma_encode_transactions_first(first, others);
        assert forall|i: int| 0 <= i < others.len() implies transaction_storable(
            #[trigger] others[i],
        ) by {
            assert(others[i] == transactions[i + 1]);
        }
        lemma_parse_transactions_encoding(others, rest);
        let behind_first = encode_transactions(others) + rest;
        assert(encode_transactions(transactions) + rest =~= first.encoding() + behind_first);
        lemma_parse_transaction_encoding(first, behind_first);
    }
}

#[verifier::rlimit(50)]
pub proof fn lemma_parse_transactions_sound(bytes: Seq<u8>, count: nat)
    ensures
        parse_transactions(bytes, count) matches Some((transactions, rest)) ==> {
            &&& transactions.len() == count
            &&& bytes == encode_transactions(transactions) + rest
            &&& forall|i: int|
                0 <= i < transactions.len() ==> transaction_storable(#[trigger] transactions[i])
        },
    decreases count,
{
    if count == 0 {
        assert(encode_transactions(Seq::empty()) + bytes =~= bytes);
    } else if parse_transactions(bytes, count) is Some {
        let head = parse_transaction(bytes)->Some_0;
        let first = head.0;
        let behind_first = head.1;
        lemma_parse_transaction_sound(bytes);
        let tail = parse_transactions(behind_first, (count - 1) as nat)->Some_0;
        let others = tail.0;
        let rest = tail.1;
        lemma_parse_transactions_sound(behind_first, (count - 1) as nat);
        let transactions = seq![first] + others;
        assert(parse_transactions(bytes, count) == Some((transactions, rest)));
        lemma_encode_transactions_first(first, others);
        assert(bytes =~= encode_transactions(transactions) + rest);
        assert forall|i: int| 0 <= i < transactions.len() implies transaction_storable(
            #[trigger] transactions[i],
        ) by {
            if i > 0 {
                assert(transactions[i] == others[i - 1]);
            }
        }
    }
}

/// Behind the encoding of a block that can be kept, the block is read back.
#[verifier::rlimit(50)]
pub proof fn lemma_parse_block_encoding(block: BlockView, rest: Seq<u8>)
    requires
        block_storable(block),
    ensures
        parse_block(block.encoding() + rest) == Some((block, rest)),
{
    let behind_nonce = encode_u64(block.height as u64) + rest;
    let behind_transactions = encode_i64(block.nonce) + behind_nonce;
    let behind_count = encode_transactions(block.transactions) + behind_transactions;
    let behind_hash = encode_u64(block.transactions.len() as u64) + behind_count;
    let behind_prev = encode_bytes(encode_utf8(block.hash)) + behind_hash;
    let behind_timestamp = encode_bytes(encode_utf8(block.prev_hash)) + behind_prev;
    let bytes = block.encoding() + rest;
    assert(bytes =~= encode_i64(block.timestamp) + behind_timestamp);
    lemma_parse_i64_encoding(block.timestamp, behind_timestamp);
    assert(parse_i64(bytes) == Some((block.timestamp, behind_timestamp)));
    lemma_parse_text_encoding(block.prev_hash, behind_prev);
    assert(parse_text(behind_timestamp) == Some((block.prev_hash, behind_prev)));
    lemma_parse_text_encoding(block.hash, behind_hash);
    assert(parse_text(behind_prev) == Some((block.hash, behind_hash)));
    lemma_parse_len_encoding(block.transactions.len() as usize, behind_count);
    assert(parse_len(behind_hash) == Some((block.transactions.len() as usize, behind_count)));
    lemma_parse_transactions_encoding(block.transactions, behind_transactions);
    assert(parse_transactions(behind_count, block.transactions.len()) == Some(
        (block.transactions, behind_transactions),
    ));
    lemma_parse_i64_encoding(block.nonce, behind_nonce);
    assert(parse_i64(behind_transactions) == Some((block.nonce, behind_nonce)));
    lemma_parse_len_encoding(block.height, rest);
    assert(parse_len(behind_nonce) == Some((block.height, rest)));
    assert(parse_block_fields(bytes) == Some((block, rest)));
}

/// What is read as a block is the encoding of that block, before what is left; and the
/// block can be kept.
#[verifier::rlimit(50)]
pub proof fn lemma_parse_block_sound(bytes: Seq<u8>)
    ensures
        parse_block(bytes) matches Some((block, rest)) ==> bytes == block.encoding() + rest
            && block_storable(block),
{
    if parse_block(bytes) is Some {
        let first = parse_i64(bytes)->Some_0;
        lemma_parse_i64_sound(bytes);
        let second = parse_text(first.1)->Some_0;
        lemma_parse_text_sound(first.1);
        let third = parse_text(second.1)->Some_0;
        lemma_parse_text_sound(second.1);
        let fourth = parse_len(third.1)->Some_0;
        lemma_parse_len_sound(third.1);
        let fifth = parse_transactions(fourth.1, fourth.0 as nat)->Some_0;
        lemma_parse_transactions_sound(fourth.1, fourth.0 as nat);
        let sixth = parse_i64(fifth.1)->Some_0;
        lemma_parse_i64_sound(fifth.1);
        let seventh = parse_len(sixth.1)->Some_0;
        lemma_parse_len_sound(sixth.1);
        let block = BlockView {
            timestamp: first.0,
            prev_hash: second.0,
            hash: third.0,
            transactions: fifth.0,
            nonce: sixth.0,
            height: seventh.0,
        };
        assert(parse_block_fields(bytes) == Some((block, seventh.1)));
        assert(bytes =~= block.encoding() + seventh.1);
    }
}

/// Reads a text at `pos`.
pub fn read_text(bytes: &[u8], pos: usize) -> (read: Option<(String, usize)>)
    requires
        pos <= bytes@.len(),
    ensures
        match read {
            Some((text, next)) => pos <= next <= bytes@.len() && parse_text(
                bytes@.skip(pos as int),
            ) == Some((text@, bytes@.skip(next as int))),
            None => parse_text(bytes@.skip(pos as int)) is None,
        },
{
    proof {
        reveal(parse_text);
    }
    match read_bytes(bytes, pos) {
        Some((raw, next)) => match string_from_utf8(raw) {
            Some(text) => Some((text, next)),
            None => None,
        },
        None => None,
    }
}

/// Reads `count` transactions at `pos`.
#[verifier::rlimit(50)]
pub fn read_transactions(bytes: &[u8], pos: usize, count: usize) -> (read: Option<
    (Vec<Transaction>, usize),
>)
    requires
        pos <= bytes@.len(),
    ensures
        match read {
            Some((transactions, next)) => pos <= next <= bytes@.len() && parse_transactions(
                bytes@.skip(pos as int),
                count as nat,
            ) == Some((transactions_view(transactions@), bytes@.skip(next as int))),
            None => parse_transactions(bytes@.skip(pos as int), count as nat) is None,
        },
{
    let mut transactions: Vec<Transaction> = Vec::new();
    let mut at: usize = pos;
    let mut i: usize = 0;
    let ghost whole = parse_transactions(bytes@.skip(pos as int), count as nat);
    proof {
        if let Some((tail, rest)) = whole {
            assert(transactions_view(transactions@) + tail =~= tail);
        }
    }
    while i < count
        invariant
            i <= count,
            pos <= at <= bytes@.len(),
            whole == parse_transactions(bytes@.skip(pos as int), count as nat),
            whole == match parse_transactions(bytes@.skip(at as int), (count - i) as nat) {
                Some((tail, rest)) => Some((transactions_view(transactions@) + tail, rest)),
                None => None,
            },
        decreases count - i,
    {
        let ghost so_far = transactions_view(transactions@);
        match read_transaction(bytes, at) {
            Some((transaction, next)) => {
                transactions.push(transaction);
                proof {
                    assert(transactions_view(transactions@) =~= so_far.push(transaction@));
                    if let Some((tail, rest)) = parse_transactions(
                        bytes@.skip(next as int),
                        (count - i - 1) as nat,
                    ) {
                        assert(so_far + (seq![transaction@] + tail) =~= so_far.push(transaction@)
                            + tail);
                    }
                }
                at = next;
            },
            None => {
                return None;
            },
        }
        i = i + 1;
    }
    proof {
        assert(transactions_view(transactions@) + Seq::<TransactionView>::empty()
            =~= transactions_view(transactions@));
    }
    Some((transactions, at))
}

/// Reads a block at `pos`.
#[verifier::rlimit(50)]
pub fn read_block(bytes: &[u8], pos: usize) -> (read: Option<(Block, usize)>)
    requires
        pos <= bytes@.len(),
    ensures
        match read {
            Some((block, next)) => pos <= next <= bytes@.len() && parse_block(
                bytes@.skip(pos as int),
            ) == Some((block@, bytes@.skip(next as int))),
            None => parse_block(bytes@.skip(pos as int)) is None,
        },
{
    let (timestamp, pos) = match read_i64(bytes, pos) {
        Some(read) => read,
        None => {
            return None;
        },
    };
    let (pre_block_hash, pos) = match read_text(bytes, pos) {
        Some(read) => read,
        None => {
            return None;
        },
    };
    let (hash, pos) = match read_text(bytes, pos) {
        Some(read) => read,
        None => {
            return None;
        },
    };
    let (count, pos) = match read_len(bytes, pos) {
        Some(read) => read,
        None => {
            return None;
        },
    };
    let (transactions, pos) = match read_transactions(bytes, pos, count) {
        Some(read) => read,
        None => {
            return None;
        },
    };
    let (nonce, pos) = match read_i64(bytes, pos) {
        Some(read) => read,
        None => {
            return None;
        },
    };
    let (height, pos) = match read_len(bytes, pos) {
        Some(read) => read,
        None => {
            return None;
        },
    };
    match Block::from_parts(timestamp, pre_block_hash, hash, transactions, nonce, height) {
        Some(block) => Some((block, pos)),
        None => None,
    }
}

} // verus!
