use byteorder::{ByteOrder, LittleEndian};
use vstd::bytes::{
    spec_u32_from_le_bytes, spec_u32_to_le_bytes, spec_u64_from_le_bytes, spec_u64_to_le_bytes,
};
use vstd::prelude::*;

verus! {

/// Calls `byteorder::LittleEndian::read_u32`: the first four bytes of `buf`
/// read as a little-endian integer.  The callee panics on a shorter buffer.
#[verifier::external_body]
pub(crate) fn read_u32_le(buf: &[u8]) -> (value: u32)
    requires
        buf@.len() >= 4,
    ensures
        value == spec_u32_from_le_bytes(buf@.subrange(0, 4)),
{
    LittleEndian::read_u32(buf)
}

/// Calls `byteorder::LittleEndian::write_u32`: the first four bytes of `buf`
/// become the little-endian encoding of `value`, the rest stays as it was.
/// The callee panics on a shorter buffer.
#[verifier::external_body]
pub(crate) fn write_u32_le(buf: &mut [u8], value: u32)
    requires
        old(buf)@.len() >= 4,
    ensures
        final(buf)@ == spec_u32_to_le_bytes(value) + old(buf)@.subrange(4, old(buf)@.len() as int),
{
    LittleEndian::write_u32(buf, value)
}

/// Calls `byteorder::LittleEndian::read_u64`: the first eight bytes of `buf`
/// read as a little-endian integer.  The callee panics on a shorter buffer.
#[verifier::external_body]
pub(crate) fn read_u64_le(buf: &[u8]) -> (value: u64)
    requires
        buf@.len() >= 8,
    ensures
        value == spec_u64_from_le_bytes(buf@.subrange(0, 8)),
{
    LittleEndian::read_u64(buf)
}

/// Calls `byteorder::LittleEndian::write_u64`: the first eight bytes of `buf`
/// become the little-endian encoding of `value`, the rest stays as it was.
/// The callee panics on a shorter buffer.
#[verifier::external_body]
pub(crate) fn write_u64_le(buf: &mut [u8], value: u64)
    requires
        old(buf)@.len() >= 8,
    ensures
        final(buf)@ == spec_u64_to_le_bytes(value) + old(buf)@.subrange(8, old(buf)@.len() as int),
{
    LittleEndian::write_u64(buf, value)
}

} // verus!
