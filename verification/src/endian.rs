//! Little-endian integers, as the ride log stores them.
//!
//! The arithmetic meaning of a little-endian byte string is defined here; the
//! conversion itself is done by the `byteorder` crate.

use byteorder::{ByteOrder, LittleEndian};
use vstd::prelude::*;

verus! {

/// The number that `bytes` spells when the first byte is the least significant.
pub open spec fn le_value(bytes: Seq<u8>) -> nat
    decreases bytes.len(),
{
    if bytes.len() == 0 {
        0
    } else {
        bytes[0] as nat + 256 * le_value(bytes.drop_first())
    }
}

/// The `width` low-order bytes of `value`, least significant first.
pub open spec fn le_bytes(value: nat, width: nat) -> Seq<u8>
    decreases width,
{
    if width == 0 {
        Seq::empty()
    } else {
        seq![(value % 256) as u8] + le_bytes(value / 256, (width - 1) as nat)
    }
}

/// 256 to the power `width`.
pub open spec fn radix_pow(width: nat) -> nat
    decreases width,
{
    if width == 0 {
        1
    } else {
        256 * radix_pow((width - 1) as nat)
    }
}

/// `le_bytes` yields exactly `width` bytes.
pub proof fn lemma_le_bytes_len(value: nat, width: nat)
    ensures
        le_bytes(value, width).len() == width,
    decreases width,
{
    if width > 0 {
        lemma_le_bytes_len(value / 256, (width - 1) as nat);
    }
}

/// Reading back the bytes of a value that fits in `width` bytes gives the value.
pub proof fn lemma_le_value_of_bytes(value: nat, width: nat)
    requires
        value < radix_pow(width),
    ensures
        le_value(le_bytes(value, width)) == value,
    decreases width,
{
    if width > 0 {
        let rest = le_bytes(value / 256, (width - 1) as nat);
        let all = le_bytes(value, width);
        lemma_le_bytes_len(value / 256, (width - 1) as nat);
        lemma_le_value_of_bytes(value / 256, (width - 1) as nat);
        assert(all.drop_first() =~= rest);
        assert(all[0] == (value % 256) as u8);
    }
}

/// Calls `byteorder::LittleEndian::write_u32` on a fresh four-byte buffer.
/// Trusted: the buffer then holds the four bytes of `n`, least significant
/// first.
#[verifier::external_body]
pub(crate) fn u32_to_le(n: u32) -> (bytes: [u8; 4])
    ensures
        bytes@ == le_bytes(n as nat, 4),
{
    let mut buf = [0u8; 4];
    LittleEndian::write_u32(&mut buf, n);
    buf
}

/// Calls `byteorder::LittleEndian::write_u64` on a fresh eight-byte buffer.
/// Trusted: the buffer then holds the eight bytes of `n`, least significant
/// first.
#[verifier::external_body]
pub(crate) fn u64_to_le(n: u64) -> (bytes: [u8; 8])
    ensures
        bytes@ == le_bytes(n as nat, 8),
{
    let mut buf = [0u8; 8];
    LittleEndian::write_u64(&mut buf, n);
    buf
}

/// Calls `byteorder::LittleEndian::read_u32`, which panics on fewer than four
/// bytes. Trusted: the result is the number that the first four bytes spell,
/// least significant first.
#[verifier::external_body]
pub(crate) fn u32_from_le(buf: &[u8]) -> (n: u32)
    requires
        buf@.len() >= 4,
    ensures
        n as nat == le_value(buf@.subrange(0, 4)),
{
    LittleEndian::read_u32(buf)
}

/// Calls `byteorder::LittleEndian::read_u64`, which panics on fewer than
/// eight bytes. Trusted: the result is the number that the first eight bytes
/// spell, least significant first.
#[verifier::external_body]
pub(crate) fn u64_from_le(buf: &[u8]) -> (n: u64)
    requires
        buf@.len() >= 8,
    ensures
        n as nat == le_value(buf@.subrange(0, 8)),
{
    LittleEndian::read_u64(buf)
}

} // verus!
