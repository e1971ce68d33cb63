//! The stable binary encoding of records: integers at a fixed width, byte strings and
//! lists behind a 64-bit little-endian length.

use vstd::prelude::*;

verus! {

/// The `width` low bytes of `value`, lowest first.
pub open spec fn le_bytes(value: nat, width: nat) -> Seq<u8>
    decreases width,
{
    if width == 0 {
        Seq::empty()
    } else {
        seq![(value % 256) as u8] + le_bytes(value / 256, (width - 1) as nat)
    }
}

/// The `width` low bytes of `value`, highest first.
pub open spec fn be_bytes(value: nat, width: nat) -> Seq<u8>
    decreases width,
{
    if width == 0 {
        Seq::empty()
    } else {
        be_bytes(value / 256, (width - 1) as nat).push((value % 256) as u8)
    }
}

/// The unsigned number with the same 64 bits as `value` in two's complement.
pub open spec fn unsigned64(value: i64) -> nat {
    if value >= 0 {
        value as nat
    } else {
        (value + 0x1_0000_0000_0000_0000) as nat
    }
}

/// The unsigned number with the same 32 bits as `value` in two's complement.
pub open spec fn unsigned32(value: i32) -> nat {
    if value >= 0 {
        value as nat
    } else {
        (value + 0x1_0000_0000) as nat
    }
}

pub open spec fn encode_u64(value: u64) -> Seq<u8> {
    le_bytes(value as nat, 8)
}

pub open spec fn encode_i64(value: i64) -> Seq<u8> {
    le_bytes(unsigned64(value), 8)
}

pub open spec fn encode_i32(value: i32) -> Seq<u8> {
    le_bytes(unsigned32(value), 4)
}

/// A byte string behind its length.
pub open spec fn encode_bytes(bytes: Seq<u8>) -> Seq<u8> {
    encode_u64(bytes.len() as u64) + bytes
}

pub proof fn lemma_be_bytes_len(value: nat, width: nat)
    ensures
        be_bytes(value, width).len() == width,
    decreases width,
{
    if width > 0 {
        lemma_be_bytes_len(value / 256, (width - 1) as nat);
    }
}

/// Appends the `width` low bytes of `value`, lowest first.
pub fn write_le(out: &mut Vec<u8>, value: u64, width: usize)
    ensures
        final(out)@ == old(out)@ + le_bytes(value as nat, width as nat),
    decreases width,
{
    if width > 0 {
        out.push((value % 256) as u8);
        write_le(out, value / 256, width - 1);
        assert(final(out)@ =~= old(out)@ + le_bytes(value as nat, width as nat));
    } else {
        assert(final(out)@ =~= old(out)@ + le_bytes(value as nat, width as nat));
    }
}

/// Appends the `width` low bytes of `value`, highest first.
pub fn write_be(out: &mut Vec<u8>, value: u64, width: usize)
    ensures
        final(out)@ == old(out)@ + be_bytes(value as nat, width as nat),
    decreases width,
{
    if width > 0 {
        write_be(out, value / 256, width - 1);
        out.push((value % 256) as u8);
        assert(final(out)@ =~= old(out)@ + be_bytes(value as nat, width as nat));
    } else {
        assert(final(out)@ =~= old(out)@ + be_bytes(value as nat, width as nat));
    }
}

/// The unsigned number with the same 64 bits as `value`.
pub fn to_unsigned64(value: i64) -> (bits: u64)
    ensures
        bits == unsigned64(value),
{
    if value >= 0 {
        value as u64
    } else {
        ((value - i64::MIN) as u64) + 0x8000_0000_0000_0000u64
    }
}

/// The unsigned number with the same 32 bits as `value`.
pub fn to_unsigned32(value: i32) -> (bits: u64)
    ensures
        bits == unsigned32(value),
{
    if value >= 0 {
        value as u64
    } else {
        ((value - i32::MIN) as u64) + 0x8000_0000u64
    }
}

pub fn write_u64(out: &mut Vec<u8>, value: u64)
    ensures
        final(out)@ == old(out)@ + encode_u64(value),
{
    write_le(out, value, 8);
}

pub fn write_i64(out: &mut Vec<u8>, value: i64)
    ensures
        final(out)@ == old(out)@ + encode_i64(value),
{
    write_le(out, to_unsigned64(value), 8);
}

pub fn write_i32(out: &mut Vec<u8>, value: i32)
    ensures
        final(out)@ == old(out)@ + encode_i32(value),
{
    write_le(out, to_unsigned32(value), 4);
}

pub fn write_bytes(out: &mut Vec<u8>, bytes: &[u8])
    ensures
        final(out)@ == old(out)@ + encode_bytes(bytes@),
        bytes@.len() <= usize::MAX,
{
    write_u64(out, bytes.len() as u64);
    out.extend_from_slice(bytes);
    assert(final(out)@ =~= old(out)@ + encode_bytes(bytes@));
}

/// A copy of a byte string.
pub fn copy_bytes(bytes: &[u8]) -> (copy: Vec<u8>)
    ensures
        copy@ == bytes@,
{
    let mut copy: Vec<u8> = Vec::new();
    copy.extend_from_slice(bytes);
    copy
}

/// Whether two byte strings hold the same bytes.
pub fn bytes_equal(left: &[u8], right: &[u8]) -> (same: bool)
    ensures
        same == (left@ == right@),
{
    if left.len() != right.len() {
        return false;
    }
    let mut i: usize = 0;
    while i < left.len()
        invariant
            i <= left.len(),
            left.len() == right.len(),
            forall|j: int| 0 <= j < i ==> left@[j] == right@[j],
        decreases left.len() - i,
    {
        if left[i] != right[i] {
            return false;
        }
        i = i + 1;
    }
    assert(left@ =~= right@);
    true
}

} // verus!
