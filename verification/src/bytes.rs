//! Little-endian integers in a byte slice.

use byteorder::ByteOrder;
use vstd::prelude::*;
use vstd::slice::slice_subrange;

verus! {

/// The number that `b` encodes, least significant byte first.
pub open spec fn le_nat(b: Seq<u8>) -> nat
    decreases b.len(),
{
    if b.len() == 0 {
        0
    } else {
        b[0] as nat + 256 * le_nat(b.skip(1))
    }
}

/// `byteorder::LittleEndian::read_u16`: the number in the first two bytes of `buf`, least
/// significant byte first. The call panics on a shorter buffer.
#[verifier::external_body]
fn read_u16(buf: &[u8]) -> (n: u16)
    requires
        buf@.len() >= 2,
    ensures
        n as nat == le_nat(buf@.take(2)),
{
    byteorder::LittleEndian::read_u16(buf)
}

/// `byteorder::LittleEndian::read_u32`: the number in the first four bytes of `buf`, least
/// significant byte first. The call panics on a shorter buffer.
#[verifier::external_body]
fn read_u32(buf: &[u8]) -> (n: u32)
    requires
        buf@.len() >= 4,
    ensures
        n as nat == le_nat(buf@.take(4)),
{
    byteorder::LittleEndian::read_u32(buf)
}

/// `byteorder::LittleEndian::read_u64`: the number in the first eight bytes of `buf`, least
/// significant byte first. The call panics on a shorter buffer.
#[verifier::external_body]
fn read_u64(buf: &[u8]) -> (n: u64)
    requires
        buf@.len() >= 8,
    ensures
        n as nat == le_nat(buf@.take(8)),
{
    byteorder::LittleEndian::read_u64(buf)
}

/// The unsigned 16-bit integer at `pos`.
pub fn u16_at(bytes: &[u8], pos: usize) -> (n: u16)
    requires
        pos + 2 <= bytes@.len(),
    ensures
        n as nat == le_nat(bytes@.subrange(pos as int, pos + 2)),
{
    assert(bytes.len() == bytes@.len());
    let field = slice_subrange(bytes, pos, pos + 2);
    assert(field@.take(2) =~= field@);
    read_u16(field)
}

/// The unsigned 32-bit integer at `pos`.
pub fn u32_at(bytes: &[u8], pos: usize) -> (n: u32)
    requires
        pos + 4 <= bytes@.len(),
    ensures
        n as nat == le_nat(bytes@.subrange(pos as int, pos + 4)),
{
    assert(bytes.len() == bytes@.len());
    let field = slice_subrange(bytes, pos, pos + 4);
    assert(field@.take(4) =~= field@);
    read_u32(field)
}

/// The unsigned 64-bit integer at `pos`.
pub fn u64_at(bytes: &[u8], pos: usize) -> (n: u64)
    requires
        pos + 8 <= bytes@.len(),
    ensures
        n as nat == le_nat(bytes@.subrange(pos as int, pos + 8)),
{
    assert(bytes.len() == bytes@.len());
    let field = slice_subrange(bytes, pos, pos + 8);
    assert(field@.take(8) =~= field@);
    read_u64(field)
}

} // verus!
