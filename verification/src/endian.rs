//! Little-endian integers, as every multi-byte field on disk is laid out.

use byteorder::{ByteOrder, LittleEndian};
use vstd::bytes::*;
use vstd::prelude::*;
use vstd::slice::*;

verus! {

/// `LittleEndian::read_u16`: the integer whose little-endian representation
/// is the first two bytes of `buf`. It panics on a shorter buffer.
#[verifier::external_body]
fn le_read_u16(buf: &[u8]) -> (n: u16)
    requires
        buf@.len() >= 2,
    ensures
        n == spec_u16_from_le_bytes(buf@.subrange(0, 2)),
{
    LittleEndian::read_u16(buf)
}

/// `LittleEndian::read_u32`: as `read_u16`, on four bytes.
#[verifier::external_body]
fn le_read_u32(buf: &[u8]) -> (n: u32)
    requires
        buf@.len() >= 4,
    ensures
        n == spec_u32_from_le_bytes(buf@.subrange(0, 4)),
{
    LittleEndian::read_u32(buf)
}

/// `LittleEndian::read_u64`: as `read_u16`, on eight bytes.
#[verifier::external_body]
fn le_read_u64(buf: &[u8]) -> (n: u64)
    requires
        buf@.len() >= 8,
    ensures
        n == spec_u64_from_le_bytes(buf@.subrange(0, 8)),
{
    LittleEndian::read_u64(buf)
}

/// `LittleEndian::write_u16`: overwrites the first two bytes of `buf` with
/// the little-endian representation of `n` and leaves the rest alone. It
/// panics on a shorter buffer.
#[verifier::external_body]
fn le_write_u16(buf: &mut [u8], n: u16)
    requires
        old(buf)@.len() >= 2,
    ensures
        final(buf)@ == spec_u16_to_le_bytes(n) + old(buf)@.subrange(2, old(buf)@.len() as int),
{
    LittleEndian::write_u16(buf, n)
}

/// `LittleEndian::write_u32`: as `write_u16`, on four bytes.
#[verifier::external_body]
fn le_write_u32(buf: &mut [u8], n: u32)
    requires
        old(buf)@.len() >= 4,
    ensures
        final(buf)@ == spec_u32_to_le_bytes(n) + old(buf)@.subrange(4, old(buf)@.len() as int),
{
    LittleEndian::write_u32(buf, n)
}

/// `LittleEndian::write_u64`: as `write_u16`, on eight bytes.
#[verifier::external_body]
fn le_write_u64(buf: &mut [u8], n: u64)
    requires
        old(buf)@.len() >= 8,
    ensures
        final(buf)@ == spec_u64_to_le_bytes(n) + old(buf)@.subrange(8, old(buf)@.len() as int),
{
    LittleEndian::write_u64(buf, n)
}

/// Appends `src` to `out`.
pub fn append(out: &mut Vec<u8>, src: &[u8])
    ensures
        final(out)@ == old(out)@ + src@,
{
    out.extend_from_slice(src);
    assert(out@ =~= old(out)@ + src@);
}

/// Reads the little-endian `u16` at `at`.
pub fn get_u16(bytes: &[u8], at: usize) -> (n: u16)
    requires
        at + 2 <= bytes@.len(),
    ensures
        n == spec_u16_from_le_bytes(bytes@.subrange(at as int, at + 2)),
{
    assert(bytes@.len() == bytes.len());
    let field = slice_subrange(bytes, at, at + 2);
    assert(field@.subrange(0, 2) =~= field@);
    le_read_u16(field)
}

/// Reads the little-endian `u32` at `at`.
pub fn get_u32(bytes: &[u8], at: usize) -> (n: u32)
    requires
        at + 4 <= bytes@.len(),
    ensures
        n == spec_u32_from_le_bytes(bytes@.subrange(at as int, at + 4)),
{
    assert(bytes@.len() == bytes.len());
    let field = slice_subrange(bytes, at, at + 4);
    assert(field@.subrange(0, 4) =~= field@);
    le_read_u32(field)
}

/// Reads the little-endian `u64` at `at`.
pub fn get_u64(bytes: &[u8], at: usize) -> (n: u64)
    requires
        at + 8 <= bytes@.len(),
    ensures
        n == spec_u64_from_le_bytes(bytes@.subrange(at as int, at + 8)),
{
    assert(bytes@.len() == bytes.len());
    let field = slice_subrange(bytes, at, at + 8);
    assert(field@.subrange(0, 8) =~= field@);
    le_read_u64(field)
}

/// Appends the little-endian representation of `n`.
pub fn put_u16(out: &mut Vec<u8>, n: u16)
    ensures
        final(out)@ == old(out)@ + spec_u16_to_le_bytes(n),
{
    let mut field: Vec<u8> = vec![0u8, 0u8];
    le_write_u16(field.as_mut_slice(), n);
    assert(field@ =~= spec_u16_to_le_bytes(n));
    append(out, field.as_slice());
}

/// Appends the little-endian representation of `n`.
pub fn put_u32(out: &mut Vec<u8>, n: u32)
    ensures
        final(out)@ == old(out)@ + spec_u32_to_le_bytes(n),
{
    let mut field: Vec<u8> = vec![0u8, 0u8, 0u8, 0u8];
    le_write_u32(field.as_mut_slice(), n);
    assert(field@ =~= spec_u32_to_le_bytes(n));
    append(out, field.as_slice());
}

/// Appends the little-endian representation of `n`.
pub fn put_u64(out: &mut Vec<u8>, n: u64)
    ensures
        final(out)@ == old(out)@ + spec_u64_to_le_bytes(n),
{
    let mut field: Vec<u8> = vec![0u8, 0u8, 0u8, 0u8, 0u8, 0u8, 0u8, 0u8];
    le_write_u64(field.as_mut_slice(), n);
    assert(field@ =~= spec_u64_to_le_bytes(n));
    append(out, field.as_slice());
}

} // verus!
